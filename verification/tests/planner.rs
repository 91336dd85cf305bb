use melee_trainer::breakpoints::check_breakpoint;
use melee_trainer::gear::{GearCache, GearKind};
use melee_trainer::item_group::{decompose_item, filter_elided_items, group_similar_items,
    ItemGroup};
use melee_trainer::level::{Level, Melee, TrainError};
use melee_trainer::search::find_training_path;
use melee_trainer::types::{AttackStyle, AttackType, Equipment, Item, Slot, Stance, Stats, Weapon};
use melee_trainer::xp::{level_to_xp, xp_to_level};

fn no_reqs() -> Stats {
    Stats {
        attack: None,
        strength: None,
        defence: None,
        hitpoints: None,
        prayer: None,
        ranged: None,
        magic: None,
    }
}

fn equipment(slot: Slot, slash: i64, strength: i64, requirements: Option<Stats>) -> Equipment {
    Equipment {
        attack_stab: 0,
        attack_slash: slash,
        attack_crush: 0,
        attack_magic: 0,
        attack_ranged: 0,
        defence_stab: 0,
        defence_slash: 0,
        defence_crush: 0,
        defence_magic: 0,
        defence_ranged: 0,
        melee_strength: strength,
        ranged_strength: 0,
        magic_damage: 0,
        prayer: 0,
        slot,
        requirements,
    }
}

fn slash_stances() -> Vec<Stance> {
    let mut v = Vec::new();
    for style in [AttackStyle::Accurate, AttackStyle::Aggressive, AttackStyle::Defensive] {
        v.push(Stance {
            combat_style: "slash".to_string(),
            attack_type: Some(AttackType::Slash),
            attack_style: Some(style),
        });
    }
    v
}

fn weapon_item(id: i64, name: &str, slash: i64, strength: i64, speed: i64, req_attack: i64) -> Item {
    let mut reqs = no_reqs();
    reqs.attack = Some(req_attack);
    Item {
        id,
        name: name.to_string(),
        equipment: equipment(Slot::Weapon, slash, strength, Some(reqs)),
        weapon: Some(Weapon {
            attack_speed: speed,
            weapon_type: "slash_sword".to_string(),
            stances: slash_stances(),
        }),
    }
}

fn armor_item(id: i64, name: &str, slot: Slot, slash: i64, strength: i64) -> Item {
    Item {
        id,
        name: name.to_string(),
        equipment: equipment(slot, slash, strength, None),
        weapon: None,
    }
}

/// The small synthetic catalog: two weapons (one gated behind attack 60),
/// one head piece.
fn small_catalog() -> Vec<(i64, Item)> {
    vec![
        (1, weapon_item(1, "Training sword", 10, 5, 4, 1)),
        (2, weapon_item(2, "Master sword", 40, 30, 5, 60)),
        (3, armor_item(3, "Leather cap", Slot::Head, 2, 1)),
    ]
}

fn small_cache() -> GearCache {
    GearCache::new(GearKind::Melee, small_catalog())
}

fn group(av: i64, sv: i64, speed: Option<i64>, ids: Vec<i64>) -> ItemGroup {
    ItemGroup {
        item_ids: ids,
        attack_value: av,
        strength_value: sv,
        attack_type: AttackType::Slash,
        attack_style: None,
        attack_speed: speed,
    }
}

#[test]
fn xp_table_values() {
    assert_eq!(level_to_xp(1), 0);
    assert_eq!(level_to_xp(2), 83);
    assert_eq!(level_to_xp(3), 174);
    assert_eq!(level_to_xp(99), 13034431);
    assert_eq!(level_to_xp(127), 208545572);
    assert_eq!(xp_to_level(0), 1);
    assert_eq!(xp_to_level(82), 1);
    assert_eq!(xp_to_level(83), 2);
    assert_eq!(xp_to_level(13034430), 98);
    assert_eq!(xp_to_level(13034431), 99);
}

#[test]
fn xp_to_next_level_cases() {
    assert_eq!(Level { value: 1 }.xp_to_next_level(), 83);
    assert_eq!(Level { value: 2 }.xp_to_next_level(), 91);
    assert_eq!(Level { value: 126 }.xp_to_next_level(), 208545572 - 188884740);
    assert_eq!(Level { value: 127 }.xp_to_next_level(), 0);
    assert_eq!(Level { value: 200 }.xp_to_next_level(), u64::MAX);
}

#[test]
fn quantize_thresholds() {
    let bps: Vec<i64> = vec![1, 60];
    assert_eq!(check_breakpoint(&bps, 0), 1);
    assert_eq!(check_breakpoint(&bps, 1), 1);
    assert_eq!(check_breakpoint(&bps, 59), 1);
    assert_eq!(check_breakpoint(&bps, 60), 60);
    assert_eq!(check_breakpoint(&bps, 100), 60);
    let empty: Vec<i64> = Vec::new();
    assert_eq!(check_breakpoint(&empty, 50), 1);
}

#[test]
fn quantize_monotone_scenario() {
    let bps: Vec<i64> = vec![1, 10, 20, 40, 60];
    let mut prev = check_breakpoint(&bps, 0);
    for v in 0..80 {
        let cur = check_breakpoint(&bps, v);
        assert!(prev <= cur);
        prev = cur;
    }
}

#[test]
fn requirements_met() {
    let mut req = no_reqs();
    req.attack = Some(5);
    let mut have = no_reqs();
    have.attack = Some(4);
    assert!(!req.has_requirements(&have));
    have.attack = Some(5);
    assert!(req.has_requirements(&have));
    have.attack = None;
    assert!(!req.has_requirements(&have));
    assert!(no_reqs().has_requirements(&no_reqs()));
    let mut prayer_req = no_reqs();
    prayer_req.prayer = Some(1);
    assert!(!prayer_req.has_requirements(&have));
}

#[test]
fn decompose_weapon_and_armor() {
    let w = weapon_item(1, "Training sword", 10, 5, 4, 1);
    let vs = decompose_item(&w);
    assert_eq!(vs.len(), 3);
    for v in &vs {
        assert_eq!(v.attack_type, AttackType::Slash);
        assert_eq!(v.attack_value, 10);
        assert_eq!(v.strength_value, 5);
        assert_eq!(v.attack_speed, Some(4));
        assert!(v.attack_style.is_some());
    }
    let a = armor_item(3, "Leather cap", Slot::Head, 2, 1);
    let vs = decompose_item(&a);
    assert_eq!(vs.len(), 9);
    for v in &vs {
        assert!(v.attack_style.is_none());
        assert!(v.attack_speed.is_none());
    }
}

#[test]
fn grouping_merges_identical_items() {
    let items = vec![
        armor_item(1, "Cap", Slot::Head, 2, 1),
        armor_item(2, "Other cap", Slot::Head, 2, 1),
    ];
    let groups = group_similar_items(&items);
    assert_eq!(groups.len(), 3);
    let slash_group = groups
        .iter()
        .find(|g| g.attack_value == 2)
        .expect("slash group");
    assert_eq!(slash_group.attack_type, AttackType::Slash);
    assert_eq!(slash_group.item_ids.len(), 6);
    assert!(slash_group.item_ids.contains(&1));
    assert!(slash_group.item_ids.contains(&2));
}

#[test]
fn grouping_idempotent_scenario() {
    let items = vec![
        armor_item(1, "Cap", Slot::Head, 2, 1),
        armor_item(2, "Other cap", Slot::Head, 2, 1),
    ];
    let groups = group_similar_items(&items);
    let regrouped = group_similar_items(&items);
    assert_eq!(groups.len(), regrouped.len());
    for (g, h) in groups.iter().zip(regrouped.iter()) {
        assert_eq!(g.attack_value, h.attack_value);
        assert_eq!(g.strength_value, h.strength_value);
        assert_eq!(g.attack_type, h.attack_type);
        assert_eq!(g.item_ids, h.item_ids);
    }
}

#[test]
fn empty_group_and_identifier() {
    let e = ItemGroup::empty_group(AttackType::Slash);
    assert_eq!(e.group_identifier(), None);
    assert_eq!(e.attack_value, 0);
    assert_eq!(e.strength_value, 0);
    assert!(e.attack_speed.is_none());
    let g = group(5, 5, None, vec![5, 3, 9]);
    assert_eq!(g.group_identifier(), Some(3));
}

#[test]
fn dominance_pruning_antichain() {
    let input = vec![
        group(5, 3, Some(4), vec![1]),
        group(3, 5, Some(4), vec![2]),
        group(4, 2, Some(4), vec![3]),
        group(9, 9, Some(6), vec![4]),
    ];
    let kept = filter_elided_items(&input);
    assert_eq!(kept.len(), 3);
    for a in &kept {
        for b in &kept {
            let ea = a.attack_speed.unwrap_or(1);
            let eb = b.attack_speed.unwrap_or(1);
            if ea == eb && a.item_ids != b.item_ids {
                assert!(!(a.attack_value >= b.attack_value && a.strength_value >= b.strength_value));
            }
        }
    }
    // the dominated (4, 2) candidate is covered by the surviving (5, 3)
    assert!(kept
        .iter()
        .any(|g| g.attack_speed == Some(4) && g.attack_value >= 4 && g.strength_value >= 2));
}

#[test]
fn empty_slot_fallback() {
    let cache = small_cache();
    let groups = cache.get_by_slot_full(Slot::Cape, (1, 1, 1), AttackType::Slash,
        AttackStyle::Accurate);
    assert_eq!(groups.len(), 1);
    assert_eq!(groups[0].attack_value, 0);
    assert_eq!(groups[0].strength_value, 0);
    assert!(groups[0].attack_speed.is_none());
    assert!(groups[0].attack_style.is_none());
    assert!(groups[0].item_ids.is_empty());
}

#[test]
fn breakpoint_from_catalog() {
    let cache = small_cache();
    assert_eq!(cache.get_breakpoint(70, 70, 70), (60, 1, 1));
    assert_eq!(cache.get_breakpoint(59, 1, 1), (1, 1, 1));
}

#[test]
fn normalization_dedups_cosmetic_variants() {
    let catalog = vec![
        (4, armor_item(4, "Cap", Slot::Head, 2, 1)),
        (7, armor_item(7, "Cap", Slot::Head, 2, 1)),
        (9, armor_item(9, "Inert trinket", Slot::Ring, 0, 0)),
    ];
    let cache = GearCache::new(GearKind::Melee, catalog);
    assert!(cache.get_by_id(4).is_some());
    assert!(cache.get_by_id(7).is_none());
    assert!(cache.get_by_id(9).is_none());
}

#[test]
fn group_names() {
    let cache = small_cache();
    let g = group(10, 5, Some(4), vec![1]);
    assert_eq!(g.group_name(&cache), "Training sword-like group");
    let e = ItemGroup::empty_group(AttackType::Slash);
    assert_eq!(e.group_name(&cache), "Nothing");
}

#[test]
fn successors_monotonic_progress() {
    let cache = small_cache();
    let start = Melee::new(1, 1, 1, None);
    let goal = Melee::new(3, 3, 1, None);
    let succ = start.successors(&cache, &goal).expect("expansion succeeds");
    assert_eq!(succ.len(), 2);
    for (m, _cost) in &succ {
        let da = m.attack.value - 1;
        let ds = m.strength.value - 1;
        let dd = m.defence.value - 1;
        assert_eq!(da + ds + dd, 1);
        assert!(da == 1 || ds == 1 || dd == 1);
        assert!(m.attack.value <= 3 && m.strength.value <= 3 && m.defence.value <= 1);
    }
    assert_eq!(succ[0].0.attack.value, 2);
    assert_eq!(succ[0].1, 42668);
    assert_eq!(succ[1].0.strength.value, 2);
    assert_eq!(succ[1].1, 52065);
}

#[test]
fn successor_gear_record() {
    let cache = small_cache();
    let start = Melee::new(1, 1, 1, None);
    let goal = Melee::new(3, 1, 1, None);
    let succ = start.successors(&cache, &goal).expect("expansion succeeds");
    assert_eq!(succ.len(), 1);
    let gear = succ[0].0.gear_that_got_us_here.as_ref().expect("gear recorded");
    assert_eq!(gear.len(), 11);
    let weapon = gear.iter().find(|g| g.attack_speed.is_some()).expect("a weapon is worn");
    assert_eq!(weapon.attack_speed, Some(4));
    assert!(weapon.item_ids.contains(&1));
}

#[test]
fn path_optimality_small_catalog() {
    let cache = small_cache();
    let start = Melee::new(1, 1, 1, None);
    let goal = Melee::new(3, 1, 1, None);
    let result = find_training_path(&cache, &start, &goal).expect("no fatal error");
    let (path, total) = result.expect("goal reachable");
    assert_eq!(path.len(), 3);
    assert_eq!(
        (path[0].attack.value, path[0].strength.value, path[0].defence.value),
        (1, 1, 1)
    );
    assert_eq!(
        (path[1].attack.value, path[1].strength.value, path[1].defence.value),
        (2, 1, 1)
    );
    assert_eq!(
        (path[2].attack.value, path[2].strength.value, path[2].defence.value),
        (3, 1, 1)
    );
    // hand-computed: 42668 + 44909 micro-hours
    assert_eq!(total, 87577);
    for state in &path[1..] {
        let gear = state.gear_that_got_us_here.as_ref().expect("gear recorded");
        assert_eq!(gear.len(), 11);
    }
}

#[test]
fn unreachable_goal_reports_no_path() {
    let cache = small_cache();
    let start = Melee::new(5, 5, 5, None);
    let goal = Melee::new(3, 1, 1, None);
    let result = find_training_path(&cache, &start, &goal).expect("no fatal error");
    assert!(result.is_none());
}

#[test]
fn hit_chance_continuity_at_boundary() {
    let me = Melee::new(1, 1, 1, None);
    // attack roll with no bonus under the accurate style: 12 * 64 = 768
    let (num, den) = me.hit_chance(AttackStyle::Accurate, 0, 768);
    assert_eq!((num, den), (768, 2 * 768 + 1));
    // the other branch's formula at the same roll is 768 over 2 * 768 + 2;
    // the cross-multiplied difference is exactly the defence roll
    let other_num = 2 * 768 - 768;
    let other_den = 2 * 768 + 2;
    assert_eq!(num * other_den - other_num * den, 768);
}

#[test]
fn no_weapon_catalog_is_fatal() {
    let catalog = vec![(3, armor_item(3, "Leather cap", Slot::Head, 2, 1))];
    let cache = GearCache::new(GearKind::Melee, catalog);
    let start = Melee::new(1, 1, 1, None);
    let goal = Melee::new(2, 1, 1, None);
    let r = start.successors(&cache, &goal);
    assert_eq!(r, Err(TrainError::NoUsableWeapon));
    let search = find_training_path(&cache, &start, &goal);
    assert_eq!(search, Err(TrainError::NoUsableWeapon));
}

#[test]
fn combat_model_values() {
    let me = Melee::new(40, 40, 40, None);
    assert_eq!(me.dps(AttackStyle::Accurate, (12, 6), 4), 955420);
    let items = vec![group(12, 6, Some(4), vec![1])];
    assert_eq!(me.xp_per_hour(AttackStyle::Accurate, &items), 13758060355);
    let low = Melee::new(1, 1, 1, None);
    assert_eq!(low.hours_to_level(AttackStyle::Accurate, &items), 42668);
}

#[test]
fn style_without_stance_is_fatal() {
    // the only weapon fights accurately but has no aggressive stance, so an
    // aggressive expansion finds no usable weapon and must report it
    let mut w = weapon_item(1, "Duelling blade", 10, 5, 4, 1);
    w.weapon.as_mut().unwrap().stances.retain(|s| {
        s.attack_style == Some(AttackStyle::Accurate)
    });
    let cache = GearCache::new(GearKind::Melee, vec![(1, w)]);
    let start = Melee::new(1, 1, 1, None);
    let goal = Melee::new(2, 2, 1, None);
    assert_eq!(start.successors(&cache, &goal), Err(TrainError::NoUsableWeapon));
    // toward a goal that only needs attack, the accurate style alone suffices
    let attack_goal = Melee::new(2, 1, 1, None);
    let succ = start.successors(&cache, &attack_goal).expect("accurate expansion succeeds");
    assert_eq!(succ.len(), 1);
    assert_eq!(succ[0].0.attack.value, 2);
}

#[test]
fn state_equality_ignores_gear() {
    let bare = Melee::new(5, 6, 7, None);
    let geared = Melee::new(5, 6, 7, Some(vec![group(1, 1, None, vec![4])]));
    assert_eq!(bare, geared);
    let other = Melee::new(5, 6, 8, None);
    assert_ne!(bare, other);
}
