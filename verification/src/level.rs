//! Combat levels and the closed-form melee combat model: effective levels,
//! max hit, attack rolls, hit chance as an exact rational, and time-to-level
//! in fixed-point micro-hours.
use vstd::prelude::*;

use crate::GameInt;
use crate::gear::{group_in_slot_bucket, slot_candidates, slot_cadence_variant,
    slot_fast_cadence_variant, GearCache, BONUS_LIMIT};
use crate::item_group::gkey;
use crate::item_group::{group_matches, ItemGroup};
use crate::xp::{lemma_xp_table, xp_at, LEVEL_CAP, XP_AT_CAP};

verus! {

/// The reference opponent's fixed maximum defence roll (a level-1 defender
/// with no defensive bonus): (1 + 1 + 8) * (0 + 64).
pub const CRAB_MAX_DEFENCE_ROLL: GameInt = 640;

/// Fixed-point scale: one unit is a millionth of an hour.
pub const HOURS_SCALE: u64 = 1_000_000;

/// Largest representable edge weight in micro-hours; an unattainably slow
/// combination saturates here and stays orderable.
pub const MAX_HOURS_MICRO: u64 = 18_014_398_509_481_983;

/// One trainable combat stat's level.
#[derive(PartialEq, Eq, Structural, Hash, Clone, Copy, Debug)]
pub struct Level {
    pub value: GameInt,
}

/// Experience from `value` to the next level: a table delta below the cap,
/// zero at the cap, and an unattainable sentinel above it.
pub open spec fn spec_xp_to_next_level(value: GameInt) -> u64 {
    if 1 <= value <= 126 {
        (xp_at(value as int) - xp_at(value - 1)) as u64
    } else if value == LEVEL_CAP {
        0
    } else {
        u64::MAX
    }
}

impl Level {
    /// Experience still needed to reach the next level.
    pub fn xp_to_next_level(&self) -> (r: u64)
        ensures
            r == spec_xp_to_next_level(self.value),
            1 <= self.value <= LEVEL_CAP ==> r <= XP_AT_CAP,
            1 <= self.value <= 126 ==> r > 0,
    {
        proof {
            lemma_xp_table();
        }
        if 1 <= self.value && self.value <= 126 {
            let hi = crate::xp::level_to_xp(self.value + 1);
            let lo = crate::xp::level_to_xp(self.value);
            proof {
                assert(xp_at(self.value - 1) < xp_at(self.value as int)) by {
                    lemma_xp_table();
                }
            }
            hi - lo
        } else if self.value == LEVEL_CAP {
            0
        } else {
            u64::MAX
        }
    }
}

/// A search node: the three trainable melee stats, plus the gear worn to
/// reach this state, carried for reporting only. Equality considers the
/// three levels alone; the gear record never participates.
#[derive(Debug)]
pub struct Melee {
    pub attack: Level,
    pub strength: Level,
    pub defence: Level,
    pub gear_that_got_us_here: Option<Vec<ItemGroup>>,
}

impl PartialEq for Melee {
    fn eq(&self, other: &Self) -> (r: bool) {
        self.attack.value == other.attack.value && self.strength.value == other.strength.value
            && self.defence.value == other.defence.value
    }
}

impl vstd::std_specs::cmp::PartialEqSpecImpl for Melee {
    open spec fn obeys_eq_spec() -> bool {
        true
    }

    open spec fn eq_spec(&self, other: &Melee) -> bool {
        self.attack.value == other.attack.value && self.strength.value == other.strength.value
            && self.defence.value == other.defence.value
    }
}

impl Eq for Melee {}

impl Melee {
    /// All three levels lie in the valid range.
    pub open spec fn wf(self) -> bool {
        &&& 1 <= self.attack.value <= LEVEL_CAP
        &&& 1 <= self.strength.value <= LEVEL_CAP
        &&& 1 <= self.defence.value <= LEVEL_CAP
    }

    pub fn new(attack: GameInt, strength: GameInt, defence: GameInt,
        gear: Option<Vec<ItemGroup>>) -> (r: Self)
        ensures
            r.attack.value == attack,
            r.strength.value == strength,
            r.defence.value == defence,
            r.gear_that_got_us_here == gear,
    {
        Self {
            attack: Level { value: attack },
            strength: Level { value: strength },
            defence: Level { value: defence },
            gear_that_got_us_here: gear,
        }
    }

    /// The style's strength bonus: +3 aggressive, +1 controlled, 0 otherwise.
    pub open spec fn spec_strength_style_bonus(style: crate::types::AttackStyle) -> int {
        match style {
            crate::types::AttackStyle::Aggressive => 3,
            crate::types::AttackStyle::Controlled => 1,
            _ => 0,
        }
    }

    /// The style's attack bonus: +3 accurate, +1 controlled, 0 otherwise.
    pub open spec fn spec_attack_style_bonus(style: crate::types::AttackStyle) -> int {
        match style {
            crate::types::AttackStyle::Accurate => 3,
            crate::types::AttackStyle::Controlled => 1,
            _ => 0,
        }
    }

    /// Effective strength: the level capped at 99, plus the style bonus,
    /// plus 8 (potion bonus 0, prayer multiplier 1).
    pub open spec fn spec_effective_strength(self, style: crate::types::AttackStyle) -> int {
        (if self.strength.value <= 99 {
            self.strength.value as int
        } else {
            99
        }) + Self::spec_strength_style_bonus(style) + 8
    }

    /// Effective attack: the level capped at 99, plus the style bonus,
    /// plus 8.
    pub open spec fn spec_effective_attack(self, style: crate::types::AttackStyle) -> int {
        (if self.attack.value <= 99 {
            self.attack.value as int
        } else {
            99
        }) + Self::spec_attack_style_bonus(style) + 8
    }

    fn effective_strength(&self, style: crate::types::AttackStyle) -> (r: GameInt)
        requires
            self.wf(),
        ensures
            r == self.spec_effective_strength(style),
            9 <= r <= 110,
    {
        let strength_level = if self.strength.value <= 99 {
            self.strength.value
        } else {
            99
        };
        let style_bonus: GameInt = match style {
            crate::types::AttackStyle::Aggressive => 3,
            crate::types::AttackStyle::Controlled => 1,
            _ => 0,
        };
        strength_level + style_bonus + 8
    }

    fn effective_attack(&self, style: crate::types::AttackStyle) -> (r: GameInt)
        requires
            self.wf(),
        ensures
            r == self.spec_effective_attack(style),
            9 <= r <= 110,
    {
        let attack_level = if self.attack.value <= 99 {
            self.attack.value
        } else {
            99
        };
        let style_bonus: GameInt = match style {
            crate::types::AttackStyle::Accurate => 3,
            crate::types::AttackStyle::Controlled => 1,
            _ => 0,
        };
        attack_level + style_bonus + 8
    }

    /// Max hit: floor(0.5 + effectiveStrength * (strengthBonus + 64) / 640),
    /// computed exactly as (320 + effectiveStrength * (strengthBonus + 64))
    /// divided by 640.
    pub open spec fn spec_max_hit(self, style: crate::types::AttackStyle, bonus: int) -> int {
        (320 + self.spec_effective_strength(style) * (bonus + 64)) / 640
    }

    pub fn max_hit(&self, style: crate::types::AttackStyle, bonus: GameInt) -> (r: GameInt)
        requires
            self.wf(),
            0 <= bonus <= 16 * BONUS_LIMIT,
        ensures
            r == self.spec_max_hit(style, bonus as int),
            1 <= r <= 2_800_000,
    {
        let eff = self.effective_strength(style);
        proof {
            assert(eff * (bonus + 64) >= 9 * 64 && eff * (bonus + 64) <= 110 * (16 * 1_000_000
                + 64)) by (nonlinear_arith)
                requires
                    9 <= eff <= 110,
                    64 <= bonus + 64 <= 16 * 1_000_000 + 64,
            ;
        }
        (320 + eff * (bonus + 64)) / 640
    }

    /// Max attack roll: effectiveAttack * (offenseBonus + 64).
    pub open spec fn spec_max_attack_roll(self, style: crate::types::AttackStyle, bonus: int)
        -> int {
        self.spec_effective_attack(style) * (bonus + 64)
    }

    pub fn max_attack_roll(&self, style: crate::types::AttackStyle, bonus: GameInt) -> (r: GameInt)
        requires
            self.wf(),
            0 <= bonus <= 16 * BONUS_LIMIT,
        ensures
            r == self.spec_max_attack_roll(style, bonus as int),
            576 <= r <= 1_800_000_000,
    {
        let eff = self.effective_attack(style);
        proof {
            assert(eff * (bonus + 64) >= 9 * 64 && eff * (bonus + 64) <= 110 * (16 * 1_000_000
                + 64)) by (nonlinear_arith)
                requires
                    9 <= eff <= 110,
                    64 <= bonus + 64 <= 16 * 1_000_000 + 64,
            ;
        }
        eff * (bonus + 64)
    }
}

/// Numerator of the hit chance against a defence roll `d`: when the attack
/// roll exceeds the defence roll the chance is 1 - (d+2)/(2(a+1)), i.e.
/// (2a - d) over (2a + 2); otherwise it is a over (2d + 1).
pub open spec fn spec_hit_chance_num(a: int, d: int) -> int {
    if a > d {
        2 * a - d
    } else {
        a
    }
}

/// Denominator of the hit chance against a defence roll `d`.
pub open spec fn spec_hit_chance_den(a: int, d: int) -> int {
    if a > d {
        2 * a + 2
    } else {
        2 * d + 1
    }
}

/// The two hit-chance branches agree at an attack roll equal to the defence
/// roll, up to truncation: at a == d the taken branch yields d / (2d + 1)
/// and the other branch's formula yields d / (2d + 2); their difference over
/// the common denominator (2d + 1)(2d + 2) has numerator exactly d, so the
/// gap is below one part in 2d + 1.
pub proof fn lemma_hit_chance_continuity(a: int, d: int)
    requires
        a == d,
        d >= 0,
    ensures
        spec_hit_chance_num(a, d) == d && spec_hit_chance_den(a, d) == 2 * d + 1,
        (2 * a - d) == d && (2 * a + 2) == 2 * d + 2,
        spec_hit_chance_num(a, d) * (2 * d + 2) - (2 * a - d) * spec_hit_chance_den(a, d) == d,
        d < 2 * d + 2,
{
    assert(spec_hit_chance_num(a, d) == a);
    assert(d * (2 * d + 2) - d * (2 * d + 1) == d) by (nonlinear_arith);
}

impl Melee {
    /// The exact hit chance as a rational (numerator, denominator) pair,
    /// against a fixed enemy maximum defence roll.
    pub fn hit_chance(&self, style: crate::types::AttackStyle, attack_bonus: GameInt,
        enemy_max_defence_roll: GameInt) -> (r: (GameInt, GameInt))
        requires
            self.wf(),
            0 <= attack_bonus <= 16 * BONUS_LIMIT,
            0 <= enemy_max_defence_roll <= 2_000_000_000,
        ensures
            r.0 == spec_hit_chance_num(
                self.spec_max_attack_roll(style, attack_bonus as int),
                enemy_max_defence_roll as int,
            ),
            r.1 == spec_hit_chance_den(
                self.spec_max_attack_roll(style, attack_bonus as int),
                enemy_max_defence_roll as int,
            ),
            1 <= r.0 <= 6_000_000_000,
            1 <= r.1 <= 6_000_000_000,
            r.0 <= r.1,
    {
        let max_attack_roll = self.max_attack_roll(style, attack_bonus);
        if max_attack_roll > enemy_max_defence_roll {
            (2 * max_attack_roll - enemy_max_defence_roll, 2 * max_attack_roll + 2)
        } else {
            (max_attack_roll, 2 * enemy_max_defence_roll + 1)
        }
    }
}

/// A group's bonuses and cadence stay inside the accepted ranges.
pub open spec fn group_bounded(g: ItemGroup) -> bool {
    &&& 0 <= g.attack_value <= BONUS_LIMIT
    &&& 0 <= g.strength_value <= BONUS_LIMIT
    &&& match g.attack_speed {
        Option::None => true,
        Option::Some(s) => 1 <= s <= BONUS_LIMIT,
    }
}

pub open spec fn groups_bounded(s: Seq<ItemGroup>) -> bool {
    forall|i: int| 0 <= i < s.len() ==> group_bounded(#[trigger] s[i])
}

/// Total offense bonus of a gear set.
pub open spec fn spec_sum_attack(items: Seq<ItemGroup>) -> int
    decreases items.len(),
{
    if items.len() == 0 {
        0
    } else {
        spec_sum_attack(items.drop_last()) + items.last().attack_value
    }
}

/// Total strength bonus of a gear set.
pub open spec fn spec_sum_strength(items: Seq<ItemGroup>) -> int
    decreases items.len(),
{
    if items.len() == 0 {
        0
    } else {
        spec_sum_strength(items.drop_last()) + items.last().strength_value
    }
}

/// Sum the offense and strength bonuses of a gear set.
pub fn sum_stats(items: &Vec<ItemGroup>) -> (r: (GameInt, GameInt))
    requires
        groups_bounded(items@),
        items@.len() <= 16,
    ensures
        r.0 == spec_sum_attack(items@),
        r.1 == spec_sum_strength(items@),
        0 <= r.0 <= 16 * BONUS_LIMIT,
        0 <= r.1 <= 16 * BONUS_LIMIT,
{
    let mut attack_bonus: GameInt = 0;
    let mut strength_bonus: GameInt = 0;
    let mut i: usize = 0;
    while i < items.len()
        invariant
            0 <= i <= items@.len() <= 16,
            groups_bounded(items@),
            attack_bonus == spec_sum_attack(items@.take(i as int)),
            strength_bonus == spec_sum_strength(items@.take(i as int)),
            0 <= attack_bonus <= i * BONUS_LIMIT,
            0 <= strength_bonus <= i * BONUS_LIMIT,
        decreases items@.len() - i,
    {
        proof {
            assert(items@.take(i + 1).drop_last() =~= items@.take(i as int));
            assert(items@.take(i + 1).last() == items@[i as int]);
            assert(group_bounded(items@[i as int]));
        }
        attack_bonus = attack_bonus + items[i].attack_value;
        strength_bonus = strength_bonus + items[i].strength_value;
        i = i + 1;
    }
    proof {
        assert(items@.take(items@.len() as int) =~= items@);
    }
    (attack_bonus, strength_bonus)
}

/// The cadence of a gear set: the first group, in slot order, that carries
/// an attack cadence.
pub open spec fn spec_weapon_speed(items: Seq<ItemGroup>) -> Option<GameInt>
    decreases items.len(),
{
    if items.len() == 0 {
        Option::None
    } else {
        match items[0].attack_speed {
            Option::Some(s) => Some(s),
            Option::None => spec_weapon_speed(items.drop_first()),
        }
    }
}

/// Find the cadence of a gear set.
pub fn find_weapon_speed(items: &Vec<ItemGroup>) -> (r: Option<GameInt>)
    ensures
        r == spec_weapon_speed(items@),
{
    let mut i: usize = 0;
    proof {
        assert(items@.skip(0) =~= items@);
    }
    while i < items.len()
        invariant
            0 <= i <= items@.len(),
            spec_weapon_speed(items@) == spec_weapon_speed(items@.skip(i as int)),
        decreases items@.len() - i,
    {
        proof {
            assert(items@.skip(i as int)[0] == items@[i as int]);
            assert(items@.skip(i as int).drop_first() =~= items@.skip(i + 1));
        }
        if let Option::Some(speed) = items[i].attack_speed {
            return Some(speed);
        }
        i = i + 1;
    }
    Option::None
}

/// Time to earn `xp` experience, in micro-hours, from a hit-chance rational
/// `num / den`, a max hit, and an attack cadence in ticks (each tick is 0.6
/// seconds): hours = xp * speed / (12000 * hitChance * maxHit), saturated at
/// the largest representable weight so a hopeless combination stays
/// orderable rather than becoming an error.
pub open spec fn spec_hours_micro(xp: u64, speed: int, num: int, den: int, max_hit: int) -> u64
    recommends
        1 <= speed,
        1 <= num,
        1 <= den,
        1 <= max_hit,
{
    let exact = (xp * speed * den * HOURS_SCALE) / (12_000 * max_hit * num);
    if exact > MAX_HOURS_MICRO {
        MAX_HOURS_MICRO
    } else {
        exact as u64
    }
}

fn hours_micro(xp: u64, speed: GameInt, num: GameInt, den: GameInt, max_hit: GameInt) -> (r: u64)
    requires
        xp <= XP_AT_CAP,
        1 <= speed <= BONUS_LIMIT,
        1 <= num <= 6_000_000_000,
        1 <= den <= 6_000_000_000,
        1 <= max_hit <= 2_800_000,
    ensures
        r == spec_hours_micro(xp, speed as int, num as int, den as int, max_hit as int),
        r <= MAX_HOURS_MICRO,
{
    proof {
        assert((xp as int) * (speed as int) <= 300_000_000 * 1_000_000) by (nonlinear_arith)
            requires
                0 <= xp <= 300_000_000,
                0 <= speed <= 1_000_000,
        ;
    }
    let t1: u128 = (xp as u128) * (speed as u128);
    proof {
        assert((t1 as int) * (den as int) <= 300_000_000_000_000 * 6_000_000_000)
            by (nonlinear_arith)
            requires
                0 <= t1 <= 300_000_000_000_000,
                0 <= den <= 6_000_000_000,
        ;
    }
    let t2: u128 = t1 * (den as u128);
    proof {
        assert((t2 as int) * (HOURS_SCALE as int) <= 1_800_000_000_000_000_000_000_000
            * 1_000_000) by (nonlinear_arith)
            requires
                0 <= t2 <= 1_800_000_000_000_000_000_000_000,
                HOURS_SCALE == 1_000_000,
        ;
    }
    let n: u128 = t2 * (HOURS_SCALE as u128);
    proof {
        assert(12_000 * (max_hit as int) <= 12_000 * 2_800_000) by (nonlinear_arith)
            requires
                0 <= max_hit <= 2_800_000,
        ;
    }
    let d1: u128 = 12_000u128 * (max_hit as u128);
    proof {
        assert((d1 as int) * (num as int) <= 33_600_000_000 * 6_000_000_000 && (d1 as int) * (
        num as int) >= 1) by (nonlinear_arith)
            requires
                1 <= d1 <= 33_600_000_000,
                1 <= num <= 6_000_000_000,
        ;
    }
    let d: u128 = d1 * (num as u128);
    let e: u128 = n / d;
    if e > MAX_HOURS_MICRO as u128 {
        MAX_HOURS_MICRO
    } else {
        e as u64
    }
}

impl Melee {
    /// Damage per second, in millionths: hitChance * (maxHit / 2) divided by
    /// the attack interval in seconds (cadence ticks of 0.6 s each), which
    /// reduces to 5 * num * maxHit / (6 * den * speed).
    pub open spec fn spec_dps_micro(self, style: crate::types::AttackStyle, attack_bonus: int,
        strength_bonus: int, attack_speed: int) -> int {
        let a = self.spec_max_attack_roll(style, attack_bonus);
        let num = spec_hit_chance_num(a, CRAB_MAX_DEFENCE_ROLL as int);
        let den = spec_hit_chance_den(a, CRAB_MAX_DEFENCE_ROLL as int);
        let mh = self.spec_max_hit(style, strength_bonus);
        (5 * num * mh * HOURS_SCALE) / (6 * den * attack_speed)
    }

    /// Damage per second against the reference opponent, in millionths.
    pub fn dps(&self, style: crate::types::AttackStyle, bonuses: (GameInt, GameInt),
        attack_speed: GameInt) -> (r: u64)
        requires
            self.wf(),
            0 <= bonuses.0 <= 16 * BONUS_LIMIT,
            0 <= bonuses.1 <= 16 * BONUS_LIMIT,
            1 <= attack_speed <= BONUS_LIMIT,
        ensures
            r == self.spec_dps_micro(style, bonuses.0 as int, bonuses.1 as int,
                attack_speed as int),
    {
        let (num, den) = self.hit_chance(style, bonuses.0, CRAB_MAX_DEFENCE_ROLL);
        let mh = self.max_hit(style, bonuses.1);
        let n1: u128 = 5u128 * (num as u128);
        proof {
            assert((n1 as int) * (mh as int) <= 30_000_000_000 * 2_800_000) by (nonlinear_arith)
                requires
                    0 <= n1 <= 30_000_000_000,
                    0 <= mh <= 2_800_000,
            ;
        }
        let n2: u128 = n1 * (mh as u128);
        proof {
            assert((n2 as int) * (HOURS_SCALE as int) <= 84_000_000_000_000_000 * 1_000_000)
                by (nonlinear_arith)
                requires
                    0 <= n2 <= 84_000_000_000_000_000,
                    HOURS_SCALE == 1_000_000,
            ;
        }
        let n: u128 = n2 * (HOURS_SCALE as u128);
        let d1: u128 = 6u128 * (den as u128);
        proof {
            assert((d1 as int) * (attack_speed as int) <= 36_000_000_000 * 1_000_000 && 1 <= (
            d1 as int) * (attack_speed as int)) by (nonlinear_arith)
                requires
                    1 <= d1 <= 36_000_000_000,
                    1 <= attack_speed <= 1_000_000,
            ;
        }
        let d: u128 = d1 * (attack_speed as u128);
        proof {
            let ni = n as int;
            let di = d as int;
            assert(ni <= di * 2_400_000_000_000) by (nonlinear_arith)
                requires
                    ni == 5 * (num as int) * (mh as int) * 1_000_000,
                    di == 6 * (den as int) * (attack_speed as int),
                    1 <= num <= den,
                    1 <= mh <= 2_800_000,
                    1 <= attack_speed,
            ;
            vstd::arithmetic::div_mod::lemma_div_is_ordered(ni, di * 2_400_000_000_000, di);
            vstd::arithmetic::div_mod::lemma_div_multiples_vanish(2_400_000_000_000, di);
        }
        let e: u128 = n / d;
        e as u64
    }

    /// Experience per hour, in millionths: dps * 4 xp per damage * 3600
    /// seconds, which reduces to 12000 * num * maxHit / (den * speed).
    pub open spec fn spec_xp_per_hour_micro(self, style: crate::types::AttackStyle,
        attack_bonus: int, strength_bonus: int, attack_speed: int) -> int {
        let a = self.spec_max_attack_roll(style, attack_bonus);
        let num = spec_hit_chance_num(a, CRAB_MAX_DEFENCE_ROLL as int);
        let den = spec_hit_chance_den(a, CRAB_MAX_DEFENCE_ROLL as int);
        let mh = self.spec_max_hit(style, strength_bonus);
        (12_000 * num * mh * HOURS_SCALE) / (den * attack_speed)
    }

    /// Experience gained per hour wearing this gear set, in millionths.
    pub fn xp_per_hour(&self, style: crate::types::AttackStyle, items: &Vec<ItemGroup>) -> (r: u64)
        requires
            self.wf(),
            groups_bounded(items@),
            items@.len() <= 16,
            spec_weapon_speed(items@).is_some(),
        ensures
            r == self.spec_xp_per_hour_micro(
                style,
                spec_sum_attack(items@),
                spec_sum_strength(items@),
                spec_weapon_speed(items@)->Some_0 as int,
            ),
    {
        let (attack_bonus, strength_bonus) = sum_stats(items);
        let attack_speed = find_weapon_speed(items).unwrap();
        proof {
            lemma_weapon_speed_bounded(items@);
        }
        let (num, den) = self.hit_chance(style, attack_bonus, CRAB_MAX_DEFENCE_ROLL);
        let mh = self.max_hit(style, strength_bonus);
        let n1: u128 = 12_000u128 * (num as u128);
        proof {
            assert((n1 as int) * (mh as int) <= 72_000_000_000_000 * 2_800_000)
                by (nonlinear_arith)
                requires
                    0 <= n1 <= 72_000_000_000_000,
                    0 <= mh <= 2_800_000,
            ;
        }
        let n2: u128 = n1 * (mh as u128);
        proof {
            assert((n2 as int) * (HOURS_SCALE as int) <= 201_600_000_000_000_000_000 * 1_000_000)
                by (nonlinear_arith)
                requires
                    0 <= n2 <= 201_600_000_000_000_000_000,
                    HOURS_SCALE == 1_000_000,
            ;
        }
        let n: u128 = n2 * (HOURS_SCALE as u128);
        proof {
            assert((den as int) * (attack_speed as int) <= 6_000_000_000 * 1_000_000 && 1 <= (
            den as int) * (attack_speed as int)) by (nonlinear_arith)
                requires
                    1 <= den <= 6_000_000_000,
                    1 <= attack_speed <= 1_000_000,
            ;
        }
        let d: u128 = (den as u128) * (attack_speed as u128);
        proof {
            let ni = n as int;
            let di = d as int;
            assert(ni <= di * 33_600_000_000_000_000) by (nonlinear_arith)
                requires
                    ni == 12_000 * (num as int) * (mh as int) * 1_000_000,
                    di == (den as int) * (attack_speed as int),
                    1 <= num <= den,
                    1 <= mh <= 2_800_000,
                    1 <= attack_speed,
            ;
            vstd::arithmetic::div_mod::lemma_div_is_ordered(ni, di * 33_600_000_000_000_000, di);
            vstd::arithmetic::div_mod::lemma_div_multiples_vanish(33_600_000_000_000_000, di);
        }
        let e: u128 = n / d;
        e as u64
    }
}

/// Every group's cadence, when present, is in range; so is the set's.
pub proof fn lemma_weapon_speed_bounded(items: Seq<ItemGroup>)
    requires
        groups_bounded(items),
    ensures
        match spec_weapon_speed(items) {
            Option::None => true,
            Option::Some(s) => 1 <= s <= BONUS_LIMIT,
        },
    decreases items.len(),
{
    if items.len() > 0 {
        assert(group_bounded(items[0]));
        if items[0].attack_speed.is_none() {
            assert(groups_bounded(items.drop_first())) by {
                assert(forall|i: int|
                    0 <= i < items.drop_first().len() ==> items.drop_first()[i] == items[i + 1]);
            }
            lemma_weapon_speed_bounded(items.drop_first());
        }
    }
}

/// The three melee training styles this crate explores.
pub open spec fn is_melee_style(style: crate::types::AttackStyle) -> bool {
    ||| style == crate::types::AttackStyle::Accurate
    ||| style == crate::types::AttackStyle::Aggressive
    ||| style == crate::types::AttackStyle::Defensive
}

/// Experience to the next level of the stat a style trains.
pub open spec fn spec_style_xp(me: Melee, style: crate::types::AttackStyle) -> u64 {
    match style {
        crate::types::AttackStyle::Accurate => spec_xp_to_next_level(me.attack.value),
        crate::types::AttackStyle::Aggressive => spec_xp_to_next_level(me.strength.value),
        crate::types::AttackStyle::Defensive => spec_xp_to_next_level(me.defence.value),
        _ => 0,
    }
}

impl Melee {
    /// Hours, in millionths, to the next level of the stat `style` trains,
    /// wearing this gear set.
    pub open spec fn spec_hours_to_level(self, style: crate::types::AttackStyle,
        items: Seq<ItemGroup>) -> u64
        recommends
            spec_weapon_speed(items).is_some(),
    {
        let a = self.spec_max_attack_roll(style, spec_sum_attack(items));
        spec_hours_micro(
            spec_style_xp(self, style),
            spec_weapon_speed(items)->Some_0 as int,
            spec_hit_chance_num(a, CRAB_MAX_DEFENCE_ROLL as int),
            spec_hit_chance_den(a, CRAB_MAX_DEFENCE_ROLL as int),
            self.spec_max_hit(style, spec_sum_strength(items)),
        )
    }

    /// Hours to the next level of the trained stat, wearing this gear set.
    pub fn hours_to_level(&self, style: crate::types::AttackStyle, items: &Vec<ItemGroup>) -> (r:
        u64)
        requires
            self.wf(),
            is_melee_style(style),
            groups_bounded(items@),
            items@.len() <= 16,
            spec_weapon_speed(items@).is_some(),
        ensures
            r == self.spec_hours_to_level(style, items@),
            r <= MAX_HOURS_MICRO,
    {
        let xp: u64 = match style {
            crate::types::AttackStyle::Accurate => self.attack.xp_to_next_level(),
            crate::types::AttackStyle::Aggressive => self.strength.xp_to_next_level(),
            _ => self.defence.xp_to_next_level(),
        };
        let (attack_bonus, strength_bonus) = sum_stats(items);
        let attack_speed = find_weapon_speed(items).unwrap();
        proof {
            lemma_weapon_speed_bounded(items@);
        }
        let (num, den) = self.hit_chance(style, attack_bonus, CRAB_MAX_DEFENCE_ROLL);
        let mh = self.max_hit(style, strength_bonus);
        hours_micro(xp, attack_speed, num, den, mh)
    }

    /// The cost of a gear combination: its hours to the next level, or
    /// nothing when no group in the combination carries a cadence (no usable
    /// weapon, so no time can be computed).
    pub open spec fn spec_combo_cost(self, style: crate::types::AttackStyle,
        set: Seq<ItemGroup>) -> Option<u64> {
        if spec_weapon_speed(set).is_some() {
            Some(self.spec_hours_to_level(style, set))
        } else {
            Option::None
        }
    }
}

/// Pointwise data-equal gear sets have the same bonus sums.
pub proof fn lemma_sums_match(s1: Seq<ItemGroup>, s2: Seq<ItemGroup>)
    requires
        s1.len() == s2.len(),
        forall|k: int| 0 <= k < s1.len() ==> group_matches(#[trigger] s1[k], s2[k]),
    ensures
        spec_sum_attack(s1) == spec_sum_attack(s2),
        spec_sum_strength(s1) == spec_sum_strength(s2),
    decreases s1.len(),
{
    if s1.len() > 0 {
        assert(forall|k: int|
            0 <= k < s1.drop_last().len() ==> group_matches(
                #[trigger] s1.drop_last()[k],
                s2.drop_last()[k],
            ));
        lemma_sums_match(s1.drop_last(), s2.drop_last());
        assert(group_matches(s1[s1.len() - 1], s2[s1.len() - 1]));
    }
}

/// Pointwise data-equal gear sets have the same cadence.
pub proof fn lemma_speed_match(s1: Seq<ItemGroup>, s2: Seq<ItemGroup>)
    requires
        s1.len() == s2.len(),
        forall|k: int| 0 <= k < s1.len() ==> group_matches(#[trigger] s1[k], s2[k]),
    ensures
        spec_weapon_speed(s1) == spec_weapon_speed(s2),
    decreases s1.len(),
{
    if s1.len() > 0 {
        assert(group_matches(s1[0], s2[0]));
        if s1[0].attack_speed.is_none() {
            assert(forall|k: int|
                0 <= k < s1.drop_first().len() ==> group_matches(
                    #[trigger] s1.drop_first()[k],
                    s2.drop_first()[k],
                ));
            lemma_speed_match(s1.drop_first(), s2.drop_first());
        }
    }
}

/// Pointwise data-equal gear sets cost the same.
pub proof fn lemma_combo_cost_match(me: Melee, style: crate::types::AttackStyle,
    s1: Seq<ItemGroup>, s2: Seq<ItemGroup>)
    requires
        s1.len() == s2.len(),
        forall|k: int| 0 <= k < s1.len() ==> group_matches(#[trigger] s1[k], s2[k]),
    ensures
        me.spec_combo_cost(style, s1) == me.spec_combo_cost(style, s2),
{
    lemma_sums_match(s1, s2);
    lemma_speed_match(s1, s2);
}

/// A gear set containing a cadence-bearing group has a cadence.
pub proof fn lemma_weapon_speed_exists(items: Seq<ItemGroup>, k: int)
    requires
        0 <= k < items.len(),
        items[k].attack_speed.is_some(),
    ensures
        spec_weapon_speed(items).is_some(),
    decreases items.len(),
{
    if items[0].attack_speed.is_none() {
        assert(items.drop_first()[k - 1] == items[k]);
        lemma_weapon_speed_exists(items.drop_first(), k - 1);
    }
}

/// `g` holds the same data as some entry of `list`.
pub open spec fn chosen_from(g: ItemGroup, list: Seq<ItemGroup>) -> bool {
    exists|j: int| 0 <= j < list.len() && group_matches(g, #[trigger] list[j])
}

/// `ext` is a full combination that matches `prefix` on the first `i` slots
/// and picks from the per-slot candidate lists beyond them.
pub open spec fn is_extension(ext: Seq<ItemGroup>, prefix: Seq<ItemGroup>,
    lists: Seq<Vec<ItemGroup>>, i: int) -> bool {
    &&& ext.len() == lists.len()
    &&& forall|k: int| 0 <= k < i ==> group_matches(#[trigger] ext[k], prefix[k])
    &&& forall|k: int| i <= k < lists.len() ==> chosen_from(#[trigger] ext[k], lists[k]@)
}

/// Every candidate list holds only bounded groups.
pub open spec fn lists_bounded(lists: Seq<Vec<ItemGroup>>) -> bool {
    forall|k: int| 0 <= k < lists.len() ==> groups_bounded((#[trigger] lists[k])@)
}

/// Copy a gear set.
pub fn duplicate_groups(v: &Vec<ItemGroup>) -> (r: Vec<ItemGroup>)
    ensures
        r@.len() == v@.len(),
        forall|k: int| 0 <= k < v@.len() ==> group_matches(#[trigger] r@[k], v@[k]),
{
    let mut r: Vec<ItemGroup> = Vec::new();
    let mut i: usize = 0;
    while i < v.len()
        invariant
            0 <= i <= v@.len(),
            r@.len() == i,
            forall|k: int| 0 <= k < i ==> group_matches(#[trigger] r@[k], v@[k]),
        decreases v@.len() - i,
    {
        r.push(v[i].duplicate());
        i = i + 1;
    }
    r
}

/// Enumerate every completion of `prefix` over the candidate lists from
/// slot `i` on, and return a cheapest combination that carries a cadence,
/// with its cost; combinations without a cadence are skipped, and the
/// result is nothing when no completion has one.
fn best_from(me: &Melee, style: crate::types::AttackStyle, lists: &Vec<Vec<ItemGroup>>, i: usize,
    prefix: &mut Vec<ItemGroup>) -> (r: Option<(Vec<ItemGroup>, u64)>)
    requires
        me.wf(),
        is_melee_style(style),
        i <= lists@.len() <= 16,
        old(prefix)@.len() == i,
        lists_bounded(lists@),
        groups_bounded(old(prefix)@),
    ensures
        final(prefix)@ == old(prefix)@,
        match r {
            Option::None => forall|ext: Seq<ItemGroup>|
                #[trigger] is_extension(ext, old(prefix)@, lists@, i as int) ==> me.spec_combo_cost(
                    style,
                    ext,
                ).is_none(),
            Option::Some(pair) => {
                &&& groups_bounded(pair.0@)
                &&& is_extension(pair.0@, old(prefix)@, lists@, i as int)
                &&& me.spec_combo_cost(style, pair.0@) == Some(pair.1)
                &&& forall|ext: Seq<ItemGroup>|
                    #[trigger] is_extension(ext, old(prefix)@, lists@, i as int)
                        && me.spec_combo_cost(style, ext).is_some() ==> pair.1
                        <= me.spec_combo_cost(style, ext)->Some_0
            },
        },
    decreases lists@.len() - i,
{
    if i == lists.len() {
        let speed = find_weapon_speed(prefix);
        if speed.is_none() {
            proof {
                assert forall|ext: Seq<ItemGroup>|
                    #[trigger] is_extension(ext, old(prefix)@, lists@, i as int) implies me
                    .spec_combo_cost(style, ext).is_none() by {
                    lemma_speed_match(ext, old(prefix)@);
                }
            }
            return Option::None;
        }
        let cost = me.hours_to_level(style, prefix);
        let set = duplicate_groups(prefix);
        proof {
            lemma_combo_cost_match(*me, style, set@, old(prefix)@);
            assert forall|k: int| 0 <= k < set@.len() implies group_bounded(#[trigger] set@[k]) by {
                assert(group_matches(set@[k], old(prefix)@[k]));
                assert(group_bounded(old(prefix)@[k]));
            }
            assert forall|ext: Seq<ItemGroup>|
                #[trigger] is_extension(ext, old(prefix)@, lists@, i as int) && me.spec_combo_cost(
                    style,
                    ext,
                ).is_some() implies cost <= me.spec_combo_cost(style, ext)->Some_0 by {
                lemma_combo_cost_match(*me, style, ext, old(prefix)@);
            }
        }
        return Some((set, cost));
    }
    let mut best: Option<(Vec<ItemGroup>, u64)> = Option::None;
    let mut j: usize = 0;
    let ghost base = old(prefix)@;
    while j < lists[i].len()
        invariant
            me.wf(),
            is_melee_style(style),
            i < lists@.len() <= 16,
            lists_bounded(lists@),
            groups_bounded(base),
            prefix@ == base,
            base.len() == i,
            0 <= j <= lists@[i as int]@.len(),
            match best {
                Option::None => forall|ext: Seq<ItemGroup>|
                    #[trigger] is_extension(ext, base, lists@, i as int) && chosen_from(
                        ext[i as int],
                        lists@[i as int]@.take(j as int),
                    ) ==> me.spec_combo_cost(style, ext).is_none(),
                Option::Some(pair) => {
                    &&& groups_bounded(pair.0@)
                    &&& is_extension(pair.0@, base, lists@, i as int)
                    &&& me.spec_combo_cost(style, pair.0@) == Some(pair.1)
                    &&& forall|ext: Seq<ItemGroup>|
                        #[trigger] is_extension(ext, base, lists@, i as int) && chosen_from(
                            ext[i as int],
                            lists@[i as int]@.take(j as int),
                        ) && me.spec_combo_cost(style, ext).is_some() ==> pair.1
                            <= me.spec_combo_cost(style, ext)->Some_0
                },
            },
        decreases lists@[i as int]@.len() - j,
    {
        let g = lists[i][j].duplicate();
        proof {
            assert(groups_bounded(lists@[i as int]@));
            assert(group_bounded(lists@[i as int]@[j as int]));
            assert(group_matches(g, lists@[i as int]@[j as int]));
        }
        prefix.push(g);
        let sub = best_from(me, style, lists, i + 1, prefix);
        let ghost pushed = prefix@;
        let popped = prefix.pop();
        proof {
            assert(prefix@ =~= base);
        }
        let ghost gv = lists@[i as int]@[j as int];
        best = match (best, sub) {
            (Option::None, Option::None) => Option::None,
            (Option::Some(p), Option::None) => Some(p),
            (Option::None, Option::Some(q)) => Some(q),
            (Option::Some(p), Option::Some(q)) => if q.1 < p.1 {
                Some(q)
            } else {
                Some(p)
            },
        };
        proof {
            let pg = base.push(g);
            assert(pushed == pg);
            assert forall|ext: Seq<ItemGroup>|
                #[trigger] is_extension(ext, base, lists@, i as int) && chosen_from(
                    ext[i as int],
                    lists@[i as int]@.take(j + 1),
                ) implies (match best {
                Option::None => me.spec_combo_cost(style, ext).is_none(),
                Option::Some(pair) => me.spec_combo_cost(style, ext).is_some() ==> pair.1 <= me
                    .spec_combo_cost(style, ext)->Some_0,
            }) by {
                let jj = choose|jj: int|
                    0 <= jj < j + 1 && group_matches(ext[i as int], #[trigger] lists@[i as int]@.take(
                        j + 1,
                    )[jj]);
                if jj < j {
                    assert(chosen_from(ext[i as int], lists@[i as int]@.take(j as int))) by {
                        assert(group_matches(ext[i as int], lists@[i as int]@.take(j as int)[jj]));
                    }
                } else {
                    assert(group_matches(ext[i as int], gv));
                    assert(is_extension(ext, pg, lists@, i + 1)) by {
                        assert forall|k: int| 0 <= k < i + 1 implies group_matches(
                            #[trigger] ext[k],
                            pg[k],
                        ) by {
                            if k < i {
                            } else {
                                assert(pg[k] == g);
                                assert(group_matches(g, gv));
                                assert(group_matches(ext[k], gv));
                            }
                        }
                        assert forall|k: int| i + 1 <= k < lists@.len() implies chosen_from(
                            #[trigger] ext[k],
                            lists@[k]@,
                        ) by {
                        }
                    }
                }
            }
            if best.is_some() {
                let pair = best->Some_0;
                if sub.is_some() && (best == sub) {
                    let q = sub->Some_0;
                    assert(is_extension(q.0@, pg, lists@, i + 1));
                    assert(is_extension(q.0@, base, lists@, i as int)) by {
                        assert forall|k: int| i <= k < lists@.len() implies chosen_from(
                            #[trigger] q.0@[k],
                            lists@[k]@,
                        ) by {
                            if k == i {
                                assert(group_matches(q.0@[k], pg[k]));
                                assert(group_matches(q.0@[k], gv));
                                assert(chosen_from(q.0@[k], lists@[i as int]@)) by {
                                    assert(group_matches(q.0@[k], lists@[i as int]@[j as int]));
                                }
                            }
                        }
                    }
                }
            }
            assert(lists@[i as int]@.take(j + 1).drop_last() =~= lists@[i as int]@.take(j as int));
        }
        j = j + 1;
    }
    proof {
        assert(lists@[i as int]@.take(lists@[i as int]@.len() as int) =~= lists@[i as int]@);
        if best.is_none() {
            assert forall|ext: Seq<ItemGroup>|
                #[trigger] is_extension(ext, base, lists@, i as int) implies me.spec_combo_cost(
                style,
                ext,
            ).is_none() by {
                assert(chosen_from(ext[i as int], lists@[i as int]@));
            }
        } else {
            let pair = best->Some_0;
            assert forall|ext: Seq<ItemGroup>|
                #[trigger] is_extension(ext, base, lists@, i as int) && me.spec_combo_cost(
                    style,
                    ext,
                ).is_some() implies pair.1 <= me.spec_combo_cost(style, ext)->Some_0 by {
                assert(chosen_from(ext[i as int], lists@[i as int]@));
            }
        }
    }
    best
}

/// Integer division order from cross-multiplied order: with positive
/// denominators, `a2 * b1 <= a1 * b2` gives `a2 / b2 <= a1 / b1`.
proof fn lemma_div_le(a2: int, b2: int, a1: int, b1: int)
    requires
        0 <= a2,
        0 <= a1,
        1 <= b1,
        1 <= b2,
        a2 * b1 <= a1 * b2,
    ensures
        a2 / b2 <= a1 / b1,
{
    let q = a2 / b2;
    vstd::arithmetic::div_mod::lemma_fundamental_div_mod(a2, b2);
    assert(q * b2 <= a2) by (nonlinear_arith)
        requires
            a2 == b2 * q + a2 % b2,
            0 <= a2 % b2,
    ;
    assert(0 <= q) by {
        vstd::arithmetic::div_mod::lemma_div_multiples_vanish(0, b2);
        vstd::arithmetic::div_mod::lemma_div_is_ordered(0, a2, b2);
    }
    assert(q * b1 <= a1) by (nonlinear_arith)
        requires
            q * b2 <= a2,
            a2 * b1 <= a1 * b2,
            1 <= b1,
            1 <= b2,
    ;
    vstd::arithmetic::div_mod::lemma_div_is_ordered(q * b1, a1, b1);
    vstd::arithmetic::div_mod::lemma_div_multiples_vanish(q, b1);
    assert((q * b1) / b1 <= a1 / b1);
    assert((b1 * q) / b1 == q);
    assert(q * b1 == b1 * q) by (nonlinear_arith);
    assert(q <= a1 / b1);
}

/// The hit chance is monotone in the attack roll: a higher roll never has a
/// lower chance, stated by cross-multiplication.
proof fn lemma_hit_chance_monotone(a1: int, a2: int, d: int)
    requires
        1 <= a1 <= a2,
        0 <= d,
    ensures
        spec_hit_chance_num(a1, d) * spec_hit_chance_den(a2, d) <= spec_hit_chance_num(a2, d)
            * spec_hit_chance_den(a1, d),
{
    if a2 <= d {
        assert(a1 * (2 * d + 1) <= a2 * (2 * d + 1)) by (nonlinear_arith)
            requires
                a1 <= a2,
                0 <= d,
        ;
    } else if a1 <= d {
        assert(a1 * (2 * a2 + 2) <= (2 * a2 - d) * (2 * d + 1)) by (nonlinear_arith)
            requires
                1 <= a1 <= d,
                d + 1 <= a2,
        ;
    } else {
        assert((2 * a1 - d) * (2 * a2 + 2) <= (2 * a2 - d) * (2 * a1 + 2)) by (nonlinear_arith)
            requires
                d < a1 <= a2,
                0 <= d,
        ;
    }
}

/// Time to level is monotone: the same experience takes no longer with a
/// cadence no slower, a hit chance no worse, and a max hit no smaller.
proof fn lemma_hours_monotone(xp: u64, s1: int, n1: int, d1: int, m1: int, s2: int, n2: int,
    d2: int, m2: int)
    requires
        1 <= s2 <= s1,
        1 <= n1,
        1 <= d1,
        1 <= m1 <= m2,
        1 <= n2,
        1 <= d2,
        n1 * d2 <= n2 * d1,
    ensures
        spec_hours_micro(xp, s2, n2, d2, m2) <= spec_hours_micro(xp, s1, n1, d1, m1),
{
    let a2 = xp * s2 * d2 * HOURS_SCALE;
    let b2 = 12_000 * m2 * n2;
    let a1 = xp * s1 * d1 * HOURS_SCALE;
    let b1 = 12_000 * m1 * n1;
    assert(0 <= a2 && 0 <= a1 && 1 <= b1 && 1 <= b2 && a2 * b1 <= a1 * b2) by (nonlinear_arith)
        requires
            a2 == xp * s2 * d2 * HOURS_SCALE,
            b2 == 12_000 * m2 * n2,
            a1 == xp * s1 * d1 * HOURS_SCALE,
            b1 == 12_000 * m1 * n1,
            0 <= xp,
            HOURS_SCALE == 1_000_000,
            1 <= s2 <= s1,
            1 <= n1,
            1 <= d1,
            1 <= m1 <= m2,
            1 <= n2,
            1 <= d2,
            n1 * d2 <= n2 * d1,
    ;
    lemma_div_le(a2, b2, a1, b1);
}

/// A pointwise no-worse gear set sums to no-worse bonuses.
proof fn lemma_sums_dominate(s1: Seq<ItemGroup>, s2: Seq<ItemGroup>)
    requires
        s1.len() == s2.len(),
        forall|k: int|
            0 <= k < s1.len() ==> ((#[trigger] s2[k]).attack_value >= s1[k].attack_value
                && s2[k].strength_value >= s1[k].strength_value),
    ensures
        spec_sum_attack(s1) <= spec_sum_attack(s2),
        spec_sum_strength(s1) <= spec_sum_strength(s2),
    decreases s1.len(),
{
    if s1.len() > 0 {
        assert(forall|k: int|
            0 <= k < s1.drop_last().len() ==> ((#[trigger] s2.drop_last()[k]).attack_value
                >= s1.drop_last()[k].attack_value && s2.drop_last()[k].strength_value
                >= s1.drop_last()[k].strength_value));
        lemma_sums_dominate(s1.drop_last(), s2.drop_last());
        assert(s2[s1.len() - 1].attack_value >= s1[s1.len() - 1].attack_value);
    }
}

/// Bonus sums of a bounded gear set are non-negative.
proof fn lemma_sums_nonneg(s: Seq<ItemGroup>)
    requires
        groups_bounded(s),
    ensures
        spec_sum_attack(s) >= 0,
        spec_sum_strength(s) >= 0,
    decreases s.len(),
{
    if s.len() > 0 {
        assert(groups_bounded(s.drop_last())) by {
            assert(forall|i: int| 0 <= i < s.drop_last().len() ==> s.drop_last()[i] == s[i]);
        }
        lemma_sums_nonneg(s.drop_last());
        assert(group_bounded(s.last()));
    }
}

/// Replacing each slot's group by one in the same cadence bucket keeps a
/// cadence and never slows it: a real cadence is kept exactly, and a bare
/// slot can at worst gain the default cadence 1.
proof fn lemma_speed_replacement(s1: Seq<ItemGroup>, s2: Seq<ItemGroup>)
    requires
        s1.len() == s2.len(),
        groups_bounded(s1),
        forall|k: int|
            0 <= k < s1.len() ==> match (#[trigger] s1[k]).attack_speed {
                Option::Some(sp) => s2[k].attack_speed == Some(sp),
                Option::None => s2[k].attack_speed is None || s2[k].attack_speed == Some(
                    1int as GameInt,
                ),
            },
    ensures
        match spec_weapon_speed(s1) {
            Option::None => true,
            Option::Some(sp1) => spec_weapon_speed(s2) is Some && 1 <= spec_weapon_speed(
                s2,
            )->Some_0 <= sp1,
        },
    decreases s1.len(),
{
    if s1.len() > 0 && spec_weapon_speed(s1) is Some {
        lemma_weapon_speed_bounded(s1);
        match s1[0].attack_speed {
            Option::Some(sp) => {
                assert(group_bounded(s1[0]));
            },
            Option::None => {
                assert(groups_bounded(s1.drop_first())) by {
                    assert(forall|i: int|
                        0 <= i < s1.drop_first().len() ==> s1.drop_first()[i] == s1[i + 1]);
                }
                assert(forall|k: int|
                    0 <= k < s1.drop_first().len() ==> match (#[trigger] s1.drop_first()[k])
                        .attack_speed {
                        Option::Some(sp) => s2.drop_first()[k].attack_speed == Some(sp),
                        Option::None => s2.drop_first()[k].attack_speed is None
                            || s2.drop_first()[k].attack_speed == Some(1int as GameInt),
                    });
                lemma_speed_replacement(s1.drop_first(), s2.drop_first());
                if s2[0].attack_speed is Some {
                    assert(s2[0].attack_speed == Some(1int as GameInt));
                    let sp1 = spec_weapon_speed(s1)->Some_0;
                    assert(sp1 >= 1);
                }
            },
        }
    }
}

/// The kinds of fatal configuration error the successor expansion reports.
#[derive(Clone, Copy, Debug, PartialEq, Eq, Structural)]
pub enum TrainError {
    /// The catalog offers no usable weapon cadence at the current
    /// breakpoint, so no training time can be computed for the style.
    NoUsableWeapon,
}

/// The eleven equipment slots the successor expansion queries, in order.
pub open spec fn slot_at(k: int) -> crate::types::Slot {
    if k == 0 {
        crate::types::Slot::Weapon
    } else if k == 1 {
        crate::types::Slot::Ammo
    } else if k == 2 {
        crate::types::Slot::Head
    } else if k == 3 {
        crate::types::Slot::Cape
    } else if k == 4 {
        crate::types::Slot::Neck
    } else if k == 5 {
        crate::types::Slot::Body
    } else if k == 6 {
        crate::types::Slot::Legs
    } else if k == 7 {
        crate::types::Slot::Shield
    } else if k == 8 {
        crate::types::Slot::Hands
    } else if k == 9 {
        crate::types::Slot::Feet
    } else {
        crate::types::Slot::Ring
    }
}

/// The stat triple a style's training step advances to: exactly one
/// coordinate, raised by one.
pub open spec fn spec_bump(me: Melee, style: crate::types::AttackStyle) -> (int, int, int) {
    match style {
        crate::types::AttackStyle::Accurate => (
            me.attack.value + 1,
            me.strength.value as int,
            me.defence.value as int,
        ),
        crate::types::AttackStyle::Aggressive => (
            me.attack.value as int,
            me.strength.value + 1,
            me.defence.value as int,
        ),
        crate::types::AttackStyle::Defensive => (
            me.attack.value as int,
            me.strength.value as int,
            me.defence.value + 1,
        ),
        _ => (me.attack.value as int, me.strength.value as int, me.defence.value as int),
    }
}

/// A style yields no successor: its stat would pass the cap or the goal.
pub open spec fn spec_capped(me: Melee, style: crate::types::AttackStyle, goal: Melee) -> bool {
    match style {
        crate::types::AttackStyle::Accurate => me.attack.value + 1 > LEVEL_CAP || me.attack.value
            + 1 > goal.attack.value,
        crate::types::AttackStyle::Aggressive => me.strength.value + 1 > LEVEL_CAP
            || me.strength.value + 1 > goal.strength.value,
        crate::types::AttackStyle::Defensive => me.defence.value + 1 > LEVEL_CAP
            || me.defence.value + 1 > goal.defence.value,
        _ => true,
    }
}

/// `m`'s levels are one uncapped training step away from `me`'s: exactly one
/// coordinate advanced by one, within the cap and the goal.
pub open spec fn is_style_step(me: Melee, goal: Melee, m: Melee) -> bool {
    exists|st: crate::types::AttackStyle|
        #[trigger] is_melee_style(st) && !spec_capped(me, st, goal) && m.attack.value == spec_bump(
            me,
            st,
        ).0 && m.strength.value == spec_bump(me, st).1 && m.defence.value == spec_bump(me, st).2
}

/// The state a stat triple stands for, with no gear attached.
pub open spec fn melee_at(t: (GameInt, GameInt, GameInt)) -> Melee {
    Melee {
        attack: Level { value: t.0 },
        strength: Level { value: t.1 },
        defence: Level { value: t.2 },
        gear_that_got_us_here: Option::None,
    }
}

/// A combination drawable from the per-slot buckets at `bp`: eleven bounded
/// groups, one per slot in order, each answerable by its slot's bucket
/// query, together carrying a cadence. Combinations holding a degenerate
/// tier-1 cadence are left out: that cadence ties with the default cadence
/// of bare slots, so pruning may keep a bare-slot group in its place.
#[verifier::opaque]
pub open spec fn is_candidate_choice(cache: GearCache, bp: crate::breakpoints::Breakpoint,
    style: crate::types::AttackStyle, ext: Seq<ItemGroup>) -> bool {
    &&& ext.len() == 11
    &&& groups_bounded(ext)
    &&& forall|k: int|
        0 <= k < 11 ==> group_in_slot_bucket(cache, #[trigger] slot_at(k), bp, style, ext[k])
    &&& spec_weapon_speed(ext) is Some
    &&& forall|k: int| 0 <= k < 11 ==> (#[trigger] ext[k]).attack_speed != Some(1int as GameInt)
}

/// What a successful expansion of one style from the state at `prev`
/// returns: the advanced state records a full eleven-slot loadout drawn
/// from the buckets at `prev`'s breakpoint, the weight is exactly that
/// loadout's hours to the next level, and no candidate choice from the same
/// buckets costs less.
#[verifier::opaque]
pub open spec fn is_successor_outcome(cache: GearCache, prev: (GameInt, GameInt, GameInt),
    style: crate::types::AttackStyle, m: Melee, c: u64) -> bool {
    let bp = cache.spec_get_breakpoint(prev.0, prev.1, prev.2);
    match m.gear_that_got_us_here {
        Option::Some(set) => {
            &&& set@.len() == 11
            &&& groups_bounded(set@)
            &&& melee_at(prev).spec_combo_cost(style, set@) == Some(c)
            &&& forall|ext: Seq<ItemGroup>|
                #[trigger] is_candidate_choice(cache, bp, style, ext) ==> c <= melee_at(
                    prev,
                ).spec_combo_cost(style, ext)->Some_0
        },
        Option::None => false,
    }
}

/// The per-slot candidate lists the expansion works from: one pruned list
/// per slot in order, bounded, nonempty, made of that slot's bucket groups,
/// honest about cadence, and covering every bucket group in its cadence
/// bucket.
pub open spec fn slot_lists_basic(cache: GearCache, bp: crate::breakpoints::Breakpoint,
    style: crate::types::AttackStyle, lists: Seq<Vec<ItemGroup>>) -> bool {
    &&& lists.len() == 11
    &&& lists_bounded(lists)
    &&& forall|k: int|
        0 <= k < 11 ==> ((#[trigger] lists[k])@.len() >= 1 && (forall|x: int|
            0 <= x < lists[k]@.len() ==> group_in_slot_bucket(cache, slot_at(k), bp, style,
            #[trigger] lists[k]@[x])) && (!slot_cadence_variant(cache, slot_at(k), bp, style)
            ==> forall|x: int|
            0 <= x < lists[k]@.len() ==> (#[trigger] lists[k]@[x]).attack_speed.is_none()) && (
        slot_fast_cadence_variant(cache, slot_at(k), bp, style) ==> exists|x: int|
            0 <= x < lists[k]@.len() && (#[trigger] lists[k]@[x]).attack_speed.is_some()))
}

/// Every group of slot `k`'s bucket is covered, in its cadence bucket, by
/// an entry of `v`.
pub open spec fn slot_covering(cache: GearCache, bp: crate::breakpoints::Breakpoint,
    style: crate::types::AttackStyle, v: Seq<ItemGroup>, k: int) -> bool {
    forall|g: ItemGroup|
        #[trigger] group_in_slot_bucket(cache, slot_at(k), bp, style, g) ==> exists|x: int|
            0 <= x < v.len() && crate::item_group::eff_speed(#[trigger] v[x])
                == crate::item_group::eff_speed(g) && crate::item_group::dominates(v[x], g)
}

/// Every bucket group is covered, in its cadence bucket, by a list entry.
pub open spec fn slot_lists_cover(cache: GearCache, bp: crate::breakpoints::Breakpoint,
    style: crate::types::AttackStyle, lists: Seq<Vec<ItemGroup>>) -> bool {
    forall|k: int| 0 <= k < 11 ==> slot_covering(cache, bp, style, (#[trigger] lists[k])@, k)
}

/// One slot's candidate list is sound for its bucket: nonempty, bounded,
/// made of bucket groups, honest about cadence, and covering every bucket
/// group in its cadence bucket.
pub open spec fn slot_entry_ok(cache: GearCache, bp: crate::breakpoints::Breakpoint,
    style: crate::types::AttackStyle, v: Seq<ItemGroup>, k: int) -> bool {
    &&& v.len() >= 1
    &&& groups_bounded(v)
    &&& forall|x: int|
        0 <= x < v.len() ==> group_in_slot_bucket(cache, slot_at(k), bp, style, #[trigger] v[x])
    &&& (!slot_cadence_variant(cache, slot_at(k), bp, style) ==> forall|x: int|
        0 <= x < v.len() ==> (#[trigger] v[x]).attack_speed.is_none())
    &&& (slot_fast_cadence_variant(cache, slot_at(k), bp, style) ==> exists|x: int|
        0 <= x < v.len() && (#[trigger] v[x]).attack_speed.is_some())
    &&& slot_covering(cache, bp, style, v, k)
}

/// The slot at position `k` of the fixed slot order.
fn slot_of_index(k: usize) -> (s: crate::types::Slot)
    requires
        k < 11,
    ensures
        s == slot_at(k as int),
{
    match k {
        0 => crate::types::Slot::Weapon,
        1 => crate::types::Slot::Ammo,
        2 => crate::types::Slot::Head,
        3 => crate::types::Slot::Cape,
        4 => crate::types::Slot::Neck,
        5 => crate::types::Slot::Body,
        6 => crate::types::Slot::Legs,
        7 => crate::types::Slot::Shield,
        8 => crate::types::Slot::Hands,
        9 => crate::types::Slot::Feet,
        _ => crate::types::Slot::Ring,
    }
}

/// Gather the pruned candidate groups of all eleven slots at a breakpoint.
fn gather_slot_candidates(gear_cache: &GearCache, breakpoint: crate::breakpoints::Breakpoint,
    style: crate::types::AttackStyle) -> (r: Vec<Vec<ItemGroup>>)
    requires
        gear_cache.wf(),
        1 <= breakpoint.0 <= LEVEL_CAP,
        1 <= breakpoint.1 <= LEVEL_CAP,
        1 <= breakpoint.2 <= LEVEL_CAP,
    ensures
        slot_lists_basic(*gear_cache, breakpoint, style, r@),
        slot_lists_cover(*gear_cache, breakpoint, style, r@),
{
    let mut lists: Vec<Vec<ItemGroup>> = Vec::new();
    let mut k: usize = 0;
    while k < 11
        invariant
            gear_cache.wf(),
            1 <= breakpoint.0 <= LEVEL_CAP,
            1 <= breakpoint.1 <= LEVEL_CAP,
            1 <= breakpoint.2 <= LEVEL_CAP,
            k <= 11,
            lists@.len() == k,
            forall|j: int|
                0 <= j < k ==> slot_entry_ok(*gear_cache, breakpoint, style,
                    (#[trigger] lists@[j])@, j),
        decreases 11 - k,
    {
        let l = slot_candidates(gear_cache, slot_of_index(k), breakpoint, style);
        lists.push(l);
        k = k + 1;
    }
    proof {
        assert forall|j: int| 0 <= j < 11 implies ((#[trigger] lists@[j])@.len() >= 1 && (
        groups_bounded(lists@[j]@)) && (forall|x: int|
            0 <= x < lists@[j]@.len() ==> group_in_slot_bucket(*gear_cache, slot_at(j), breakpoint,
            style, #[trigger] lists@[j]@[x])) && (!slot_cadence_variant(*gear_cache, slot_at(j),
            breakpoint, style) ==> forall|x: int|
            0 <= x < lists@[j]@.len() ==> (#[trigger] lists@[j]@[x]).attack_speed.is_none()) && (
        slot_fast_cadence_variant(*gear_cache, slot_at(j), breakpoint, style) ==> exists|x: int|
            0 <= x < lists@[j]@.len() && (#[trigger] lists@[j]@[x]).attack_speed.is_some())) by {
            assert(slot_entry_ok(*gear_cache, breakpoint, style, lists@[j]@, j));
        }
        assert forall|j: int| 0 <= j < 11 implies slot_covering(*gear_cache, breakpoint, style, (
        #[trigger] lists@[j])@, j) by {
            assert(slot_entry_ok(*gear_cache, breakpoint, style, lists@[j]@, j));
        }
    }
    lists
}

/// No slot offers a Slash variant with a cadence other than the degenerate
/// tier-1 cadence for this style at the breakpoint of the state at `prev`:
/// the expansion can find no usable weapon.
#[verifier::opaque]
pub open spec fn expansion_blocked(cache: GearCache, prev: (GameInt, GameInt, GameInt),
    style: crate::types::AttackStyle) -> bool {
    forall|k: int|
        0 <= k < 11 ==> !slot_fast_cadence_variant(
            cache,
            #[trigger] slot_at(k),
            cache.spec_get_breakpoint(prev.0, prev.1, prev.2),
            style,
        )
}

/// A combination's cost depends only on the state's three levels.
proof fn lemma_combo_cost_levels(me1: Melee, me2: Melee, style: crate::types::AttackStyle,
    set: Seq<ItemGroup>)
    requires
        me1.attack.value == me2.attack.value,
        me1.strength.value == me2.strength.value,
        me1.defence.value == me2.defence.value,
    ensures
        me1.spec_combo_cost(style, set) == me2.spec_combo_cost(style, set),
{
    assert(spec_style_xp(me1, style) == spec_style_xp(me2, style));
    assert(me1.spec_effective_attack(style) == me2.spec_effective_attack(style));
    assert(me1.spec_effective_strength(style) == me2.spec_effective_strength(style));
}

/// A weight no candidate completion of the per-slot lists beats also beats
/// every candidate choice from the buckets: every bucket group is covered
/// by a same-cadence dominating list entry, and replacing each slot's group
/// by its cover never raises the cost.
pub proof fn lemma_choice_minimal(me: Melee, cache: GearCache, bp: crate::breakpoints::Breakpoint,
    style: crate::types::AttackStyle, lists: Seq<Vec<ItemGroup>>, c: u64)
    requires
        me.wf(),
        is_melee_style(style),
        lists.len() == 11,
        lists_bounded(lists),
        slot_lists_cover(cache, bp, style, lists),
        forall|ext2: Seq<ItemGroup>|
            #[trigger] is_extension(ext2, Seq::empty(), lists, 0) && me.spec_combo_cost(
                style,
                ext2,
            ).is_some() ==> c <= me.spec_combo_cost(style, ext2)->Some_0,
    ensures
        forall|ext: Seq<ItemGroup>|
            #[trigger] is_candidate_choice(cache, bp, style, ext) ==> c <= me.spec_combo_cost(
                style,
                ext,
            )->Some_0,
{
    assert forall|ext: Seq<ItemGroup>|
        #[trigger] is_candidate_choice(cache, bp, style, ext) implies c <= me.spec_combo_cost(
        style,
        ext,
    )->Some_0 by {
        reveal(is_candidate_choice);
        let ext2 = Seq::new(11, |k: int| {
            let i = choose|i: int|
                0 <= i < lists[k]@.len() && crate::item_group::eff_speed(#[trigger] lists[k]@[i])
                    == crate::item_group::eff_speed(ext[k]) && crate::item_group::dominates(
                    lists[k]@[i],
                    ext[k],
                );
            lists[k]@[i]
        });
        assert forall|k: int| 0 <= k < 11 implies (chosen_from(#[trigger] ext2[k], lists[k]@)
            && crate::item_group::eff_speed(ext2[k]) == crate::item_group::eff_speed(ext[k])
            && crate::item_group::dominates(ext2[k], ext[k])) by {
            assert(slot_covering(cache, bp, style, lists[k]@, k));
            assert(group_in_slot_bucket(cache, slot_at(k), bp, style, ext[k]));
            let i = choose|i: int|
                0 <= i < lists[k]@.len() && crate::item_group::eff_speed(#[trigger] lists[k]@[i])
                    == crate::item_group::eff_speed(ext[k]) && crate::item_group::dominates(
                    lists[k]@[i],
                    ext[k],
                );
            assert(ext2[k] == lists[k]@[i]);
            assert(group_matches(ext2[k], lists[k]@[i]));
        }
        assert(is_extension(ext2, Seq::empty(), lists, 0));
        assert forall|k: int| 0 <= k < ext.len() implies match (#[trigger] ext[k]).attack_speed {
            Option::Some(sp) => ext2[k].attack_speed == Some(sp),
            Option::None => ext2[k].attack_speed is None || ext2[k].attack_speed == Some(
                1int as GameInt,
            ),
        } by {
            assert(ext[k].attack_speed != Some(1int as GameInt));
            match ext[k].attack_speed {
                Option::Some(sp) => {
                    if ext2[k].attack_speed is None {
                        assert(crate::item_group::eff_speed(ext2[k]) == 1);
                        assert(sp == 1);
                        assert(false);
                    }
                },
                Option::None => {},
            }
        }
        lemma_speed_replacement(ext, ext2);
        lemma_sums_dominate(ext, ext2);
        lemma_sums_nonneg(ext);
        lemma_weapon_speed_bounded(ext);
        let sp1 = spec_weapon_speed(ext)->Some_0 as int;
        let sp2 = spec_weapon_speed(ext2)->Some_0 as int;
        let sa1 = spec_sum_attack(ext);
        let sa2 = spec_sum_attack(ext2);
        let ss1 = spec_sum_strength(ext);
        let ss2 = spec_sum_strength(ext2);
        let ea = me.spec_effective_attack(style);
        let es = me.spec_effective_strength(style);
        let a1 = me.spec_max_attack_roll(style, sa1);
        let a2 = me.spec_max_attack_roll(style, sa2);
        assert(1 <= a1 <= a2) by (nonlinear_arith)
            requires
                a1 == ea * (sa1 + 64),
                a2 == ea * (sa2 + 64),
                9 <= ea,
                0 <= sa1 <= sa2,
        ;
        let d = CRAB_MAX_DEFENCE_ROLL as int;
        lemma_hit_chance_monotone(a1, a2, d);
        let n1 = spec_hit_chance_num(a1, d);
        let d1 = spec_hit_chance_den(a1, d);
        let n2 = spec_hit_chance_num(a2, d);
        let d2 = spec_hit_chance_den(a2, d);
        assert(1 <= n1 && 1 <= d1 && 1 <= n2 && 1 <= d2);
        let m1 = me.spec_max_hit(style, ss1);
        let m2 = me.spec_max_hit(style, ss2);
        assert(320 + es * (ss1 + 64) >= 896 && es * (ss1 + 64) <= es * (ss2 + 64))
            by (nonlinear_arith)
            requires
                9 <= es,
                0 <= ss1 <= ss2,
        ;
        assert(1 <= m1 <= m2) by {
            vstd::arithmetic::div_mod::lemma_div_is_ordered(640, 320 + es * (ss1 + 64), 640);
            vstd::arithmetic::div_mod::lemma_div_multiples_vanish(1, 640);
            vstd::arithmetic::div_mod::lemma_div_is_ordered(
                320 + es * (ss1 + 64),
                320 + es * (ss2 + 64),
                640,
            );
        }
        let xp = spec_style_xp(me, style);
        lemma_hours_monotone(xp, sp1, n1, d1, m1, sp2, n2, d2, m2);
        assert(me.spec_combo_cost(style, ext2).is_some());
        assert(c <= me.spec_combo_cost(style, ext2)->Some_0);
        assert(me.spec_combo_cost(style, ext2)->Some_0 == spec_hours_micro(xp, sp2, n2, d2, m2));
        assert(me.spec_combo_cost(style, ext)->Some_0 == spec_hours_micro(xp, sp1, n1, d1, m1));
    }
}

/// When no completion of the candidate lists has a cadence, the expansion
/// is blocked: no slot offers a usable weapon at this breakpoint.
#[verifier::rlimit(90)]
proof fn lemma_expansion_blocked(me: Melee, cache: GearCache, style: crate::types::AttackStyle,
    lists: Seq<Vec<ItemGroup>>)
    requires
        slot_lists_basic(
            cache,
            cache.spec_get_breakpoint(me.attack.value, me.strength.value, me.defence.value),
            style,
            lists,
        ),
        forall|ext: Seq<ItemGroup>|
            #[trigger] is_extension(ext, Seq::empty(), lists, 0) ==> me.spec_combo_cost(
                style,
                ext,
            ).is_none(),
    ensures
        expansion_blocked(
            cache,
            (me.attack.value, me.strength.value, me.defence.value),
            style,
        ),
{
    reveal(expansion_blocked);
    let bp = cache.spec_get_breakpoint(me.attack.value, me.strength.value, me.defence.value);
    assert forall|k: int| 0 <= k < 11 implies !slot_fast_cadence_variant(
        cache,
        #[trigger] slot_at(k),
        bp,
        style,
    ) by {
        if slot_fast_cadence_variant(cache, slot_at(k), bp, style) {
            let c = choose|c: int|
                0 <= c < lists[k]@.len() && (#[trigger] lists[k]@[c]).attack_speed.is_some();
            let ext = Seq::new(11, |t: int| if t == k {
                lists[k]@[c]
            } else {
                lists[t]@[0]
            });
            assert(is_extension(ext, Seq::<ItemGroup>::empty(), lists, 0)) by {
                assert forall|t: int| 0 <= t < lists.len() implies chosen_from(
                    #[trigger] ext[t],
                    lists[t]@,
                ) by {
                    if t == k {
                        assert(group_matches(ext[t], lists[t]@[c]));
                    } else {
                        assert(group_matches(ext[t], lists[t]@[0]));
                    }
                }
            }
            assert(ext[k].attack_speed.is_some());
            lemma_weapon_speed_exists(ext, k);
            assert(me.spec_combo_cost(style, ext).is_some());
            assert(false);
        }
    }
}

/// Fold a minimal completion of the candidate lists into the expansion's
/// stated outcome for the advanced state that records it.
#[verifier::rlimit(90)]
proof fn lemma_finish_outcome(me: Melee, cache: GearCache, style: crate::types::AttackStyle,
    lists: Seq<Vec<ItemGroup>>, m: Melee, c: u64)
    requires
        me.wf(),
        is_melee_style(style),
        slot_lists_basic(
            cache,
            cache.spec_get_breakpoint(me.attack.value, me.strength.value, me.defence.value),
            style,
            lists,
        ),
        slot_lists_cover(
            cache,
            cache.spec_get_breakpoint(me.attack.value, me.strength.value, me.defence.value),
            style,
            lists,
        ),
        match m.gear_that_got_us_here {
            Option::Some(set) => {
                &&& is_extension(set@, Seq::empty(), lists, 0)
                &&& groups_bounded(set@)
                &&& me.spec_combo_cost(style, set@) == Some(c)
            },
            Option::None => false,
        },
        forall|ext2: Seq<ItemGroup>|
            #[trigger] is_extension(ext2, Seq::empty(), lists, 0) && me.spec_combo_cost(
                style,
                ext2,
            ).is_some() ==> c <= me.spec_combo_cost(style, ext2)->Some_0,
    ensures
        is_successor_outcome(
            cache,
            (me.attack.value, me.strength.value, me.defence.value),
            style,
            m,
            c,
        ),
{
    let prev = (me.attack.value, me.strength.value, me.defence.value);
    let bp = cache.spec_get_breakpoint(me.attack.value, me.strength.value, me.defence.value);
    let set = m.gear_that_got_us_here->Some_0;
    assert(set@.len() == 11);
    assert(spec_weapon_speed(set@).is_some());
    lemma_combo_cost_levels(me, melee_at(prev), style, set@);
    lemma_choice_minimal(me, cache, bp, style, lists, c);
    assert forall|ext: Seq<ItemGroup>|
        #[trigger] is_candidate_choice(cache, bp, style, ext) implies c <= melee_at(
        prev,
    ).spec_combo_cost(style, ext)->Some_0 by {
        lemma_combo_cost_levels(me, melee_at(prev), style, ext);
    }
    reveal(is_successor_outcome);
}

impl Melee {
    /// Expand one training style: reject it when the trained stat would pass
    /// the cap or the goal; otherwise quantize the current stats to their
    /// breakpoint, gather the pruned candidate groups of all eleven slots,
    /// and pick a cheapest cadenced combination. Reports the fatal
    /// configuration error when no combination carries a cadence.
    #[verifier::rlimit(90)]
    #[verifier::spinoff_prover]
    pub fn successor(&self, style: crate::types::AttackStyle, gear_cache: &GearCache,
        goal: &Melee) -> (r: Result<Option<(Melee, u64)>, TrainError>)
        requires
            self.wf(),
            goal.wf(),
            gear_cache.wf(),
            is_melee_style(style),
        ensures
            match r {
                Result::Ok(opt) => match opt {
                    Option::None => spec_capped(*self, style, *goal),
                    Option::Some(pair) => {
                        &&& !spec_capped(*self, style, *goal)
                        &&& pair.0.attack.value == spec_bump(*self, style).0
                        &&& pair.0.strength.value == spec_bump(*self, style).1
                        &&& pair.0.defence.value == spec_bump(*self, style).2
                        &&& is_successor_outcome(
                            *gear_cache,
                            (self.attack.value, self.strength.value, self.defence.value),
                            style,
                            pair.0,
                            pair.1,
                        )
                    },
                },
                Result::Err(e) => {
                    &&& e == TrainError::NoUsableWeapon
                    &&& !spec_capped(*self, style, *goal)
                    &&& expansion_blocked(
                        *gear_cache,
                        (self.attack.value, self.strength.value, self.defence.value),
                        style,
                    )
                },
            },
    {
        let attack = self.attack.value;
        let strength = self.strength.value;
        let defence = self.defence.value;
        let breakpoint = gear_cache.get_breakpoint(attack, strength, defence);
        proof {
            gear_cache.lemma_breakpoint_in_range(attack, strength, defence);
        }
        let mut na = attack;
        let mut ns = strength;
        let mut nd = defence;
        match style {
            crate::types::AttackStyle::Accurate => {
                na = na + 1;
                if na > LEVEL_CAP || na > goal.attack.value {
                    return Result::Ok(Option::None);
                }
            },
            crate::types::AttackStyle::Aggressive => {
                ns = ns + 1;
                if ns > LEVEL_CAP || ns > goal.strength.value {
                    return Result::Ok(Option::None);
                }
            },
            _ => {
                nd = nd + 1;
                if nd > LEVEL_CAP || nd > goal.defence.value {
                    return Result::Ok(Option::None);
                }
            },
        };
        let lists = gather_slot_candidates(gear_cache, breakpoint, style);
        let mut prefix: Vec<ItemGroup> = Vec::new();
        let best = best_from(self, style, &lists, 0, &mut prefix);
        proof {
            assert(prefix@ == Seq::<ItemGroup>::empty());
        }
        if best.is_none() {
            proof {
                lemma_expansion_blocked(*self, *gear_cache, style, lists@);
            }
            return Result::Err(TrainError::NoUsableWeapon);
        }
        let pair = best.unwrap();
        let set = pair.0;
        let c = pair.1;
        let m = Melee::new(na, ns, nd, Some(set));
        proof {
            lemma_finish_outcome(*self, *gear_cache, style, lists@, m, c);
        }
        Result::Ok(Some((m, c)))
    }

    /// Expand every training style of this state: up to three successors,
    /// one per style whose trained stat stays within the cap and the goal,
    /// each advanced by exactly one level in exactly one coordinate, with
    /// the minimal achievable hours to that level as its weight. The fatal
    /// no-usable-weapon error of any expanded style propagates.
    #[verifier::rlimit(90)]
    pub fn successors(&self, gear_cache: &GearCache, goal: &Melee) -> (r: Result<
        Vec<(Melee, u64)>,
        TrainError,
    >)
        requires
            self.wf(),
            goal.wf(),
            gear_cache.wf(),
        ensures
            match r {
                Result::Ok(v) => {
                    &&& v@.len() <= 3
                    &&& forall|idx: int|
                        0 <= idx < v@.len() ==> is_style_step(*self, *goal, (#[trigger] v@[idx]).0)
                    &&& forall|st: crate::types::AttackStyle|
                        is_melee_style(st) ==> (!spec_capped(*self, st, *goal) <==> exists|idx: int|
                            0 <= idx < v@.len() && (#[trigger] v@[idx]).0.attack.value == spec_bump(
                                *self,
                                st,
                            ).0 && v@[idx].0.strength.value == spec_bump(*self, st).1
                                && v@[idx].0.defence.value == spec_bump(*self, st).2)
                },
                Result::Err(e) => {
                    &&& e == TrainError::NoUsableWeapon
                    &&& exists|st: crate::types::AttackStyle|
                        #[trigger] is_melee_style(st) && !spec_capped(*self, st, *goal)
                },
            },
    {
        let mut v: Vec<(Melee, u64)> = Vec::new();
        let acc = self.successor(crate::types::AttackStyle::Accurate, gear_cache, goal);
        match acc {
            Result::Err(e) => {
                proof {
                    assert(is_melee_style(crate::types::AttackStyle::Accurate) && !spec_capped(
                        *self,
                        crate::types::AttackStyle::Accurate,
                        *goal,
                    ));
                }
                return Result::Err(e);
            },
            Result::Ok(Some(pair)) => {
                v.push(pair);
            },
            Result::Ok(None) => {},
        }
        let agg = self.successor(crate::types::AttackStyle::Aggressive, gear_cache, goal);
        match agg {
            Result::Err(e) => {
                proof {
                    assert(is_melee_style(crate::types::AttackStyle::Aggressive) && !spec_capped(
                        *self,
                        crate::types::AttackStyle::Aggressive,
                        *goal,
                    ));
                }
                return Result::Err(e);
            },
            Result::Ok(Some(pair)) => {
                v.push(pair);
            },
            Result::Ok(None) => {},
        }
        let def = self.successor(crate::types::AttackStyle::Defensive, gear_cache, goal);
        match def {
            Result::Err(e) => {
                proof {
                    assert(is_melee_style(crate::types::AttackStyle::Defensive) && !spec_capped(
                        *self,
                        crate::types::AttackStyle::Defensive,
                        *goal,
                    ));
                }
                return Result::Err(e);
            },
            Result::Ok(Some(pair)) => {
                v.push(pair);
            },
            Result::Ok(None) => {},
        }
        proof {
            let accs = acc->Ok_0;
            let aggs = agg->Ok_0;
            let defs = def->Ok_0;
            assert forall|idx: int| 0 <= idx < v@.len() implies is_style_step(
                *self,
                *goal,
                (#[trigger] v@[idx]).0,
            ) by {
                if accs is Some && v@[idx] == accs->0 {
                    let st = crate::types::AttackStyle::Accurate;
                    assert(is_melee_style(st) && !spec_capped(*self, st, *goal) && v@[idx]
                        .0.attack.value == spec_bump(*self, st).0 && v@[idx].0.strength.value
                        == spec_bump(*self, st).1 && v@[idx].0.defence.value == spec_bump(
                        *self,
                        st,
                    ).2);
                } else if aggs is Some && v@[idx] == aggs->0 {
                    let st = crate::types::AttackStyle::Aggressive;
                    assert(is_melee_style(st) && !spec_capped(*self, st, *goal) && v@[idx]
                        .0.attack.value == spec_bump(*self, st).0 && v@[idx].0.strength.value
                        == spec_bump(*self, st).1 && v@[idx].0.defence.value == spec_bump(
                        *self,
                        st,
                    ).2);
                } else {
                    let st = crate::types::AttackStyle::Defensive;
                    assert(defs is Some && v@[idx] == defs->0);
                    assert(is_melee_style(st) && !spec_capped(*self, st, *goal) && v@[idx]
                        .0.attack.value == spec_bump(*self, st).0 && v@[idx].0.strength.value
                        == spec_bump(*self, st).1 && v@[idx].0.defence.value == spec_bump(
                        *self,
                        st,
                    ).2);
                }
            }
            assert forall|st: crate::types::AttackStyle| is_melee_style(st) implies (!spec_capped(
                *self,
                st,
                *goal,
            ) <==> exists|idx: int|
                0 <= idx < v@.len() && (#[trigger] v@[idx]).0.attack.value == spec_bump(*self, st).0
                    && v@[idx].0.strength.value == spec_bump(*self, st).1
                    && v@[idx].0.defence.value == spec_bump(*self, st).2) by {
                if !spec_capped(*self, st, *goal) {
                    if st == crate::types::AttackStyle::Accurate {
                        assert(accs is Some);
                        assert(v@[0] == accs->0);
                        assert(v@[0].0.attack.value == spec_bump(*self, st).0
                            && v@[0].0.strength.value == spec_bump(*self, st).1
                            && v@[0].0.defence.value == spec_bump(*self, st).2);
                    } else if st == crate::types::AttackStyle::Aggressive {
                        assert(aggs is Some);
                        if accs is Some {
                            assert(v@[1] == aggs->0);
                            assert(v@[1].0.attack.value == spec_bump(*self, st).0
                                && v@[1].0.strength.value == spec_bump(*self, st).1
                                && v@[1].0.defence.value == spec_bump(*self, st).2);
                        } else {
                            assert(v@[0] == aggs->0);
                            assert(v@[0].0.attack.value == spec_bump(*self, st).0
                                && v@[0].0.strength.value == spec_bump(*self, st).1
                                && v@[0].0.defence.value == spec_bump(*self, st).2);
                        }
                    } else {
                        assert(defs is Some);
                        let pos: int = v@.len() - 1;
                        assert(v@[pos] == defs->0);
                        assert(v@[pos].0.attack.value == spec_bump(*self, st).0
                            && v@[pos].0.strength.value == spec_bump(*self, st).1
                            && v@[pos].0.defence.value == spec_bump(*self, st).2);
                    }
                } else {
                    if exists|idx: int|
                        0 <= idx < v@.len() && (#[trigger] v@[idx]).0.attack.value == spec_bump(
                            *self,
                            st,
                        ).0 && v@[idx].0.strength.value == spec_bump(*self, st).1
                            && v@[idx].0.defence.value == spec_bump(*self, st).2 {
                        let idx = choose|idx: int|
                            0 <= idx < v@.len() && (#[trigger] v@[idx]).0.attack.value == spec_bump(
                                *self,
                                st,
                            ).0 && v@[idx].0.strength.value == spec_bump(*self, st).1
                                && v@[idx].0.defence.value == spec_bump(*self, st).2;
                        assert(false);
                    }
                }
            }
        }
        Result::Ok(v)
    }
}

} // verus!
