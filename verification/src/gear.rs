//! The gear cache: owns the normalized melee catalog, the three breakpoint
//! threshold lists derived from the full catalog, and answers per-slot
//! queries for the equivalence groups available at a breakpoint.
use vstd::prelude::*;

use crate::GameInt;
use crate::breakpoints::{breakpoint_stats, check_breakpoint, is_threshold, quantize_spec,
    requirement_thresholds, spec_breakpoint_stats, thresholds_sorted, Breakpoint, ReqStat};
use crate::item_group::{exec_variant_ok, filter_ok, gkey, group_collected, has_group_for,
    ids_with_key, is_grouping, key_eq, key_lt, lemma_grouping_at, lemma_ids_with_key_mem,
    spec_decompose_item, decompose_item, group_matches, DecomposedItem, ItemGroup};
use crate::types::{AttackStyle, AttackType, Item, Slot, Stats};
use crate::xp::LEVEL_CAP;
use vstd::multiset::Multiset;
use vstd::string::StringExecFns;

verus! {

/// The combat subsystem a cache serves; this crate covers the melee subset.
pub enum GearKind {
    Melee,
}

/// Largest equipment bonus magnitude and attack cadence the cache accepts;
/// keeps every downstream cost computation inside machine integer ranges.
pub const BONUS_LIMIT: GameInt = 1_000_000;

/// An item is relevant to the melee subsystem: some melee offense or
/// strength bonus is positive.
pub open spec fn spec_is_melee(item: Item) -> bool {
    ||| item.equipment.attack_stab > 0
    ||| item.equipment.attack_slash > 0
    ||| item.equipment.attack_crush > 0
    ||| item.equipment.melee_strength > 0
}

fn is_melee_gear(entry: &(GameInt, Item)) -> (r: bool)
    ensures
        r == spec_is_melee(entry.1),
{
    let item = &entry.1;
    if item.equipment.attack_stab > 0 {
        return true;
    }
    if item.equipment.attack_slash > 0 {
        return true;
    }
    if item.equipment.attack_crush > 0 {
        return true;
    }
    if item.equipment.melee_strength > 0 {
        return true;
    }
    false
}

/// Two items are cosmetic variants of the same gear: same name and the same
/// full equipment bonus profile.
pub open spec fn spec_same_display(a: Item, b: Item) -> bool {
    a.name@ == b.name@ && a.equipment == b.equipment
}

fn same_display(a: &Item, b: &Item) -> (r: bool)
    ensures
        r == spec_same_display(*a, *b),
{
    a.name == b.name && a.equipment == b.equipment
}

/// An entry survives normalization: it is melee gear and its id is the
/// lowest among entries with the same name and equipment profile.
pub open spec fn spec_keep_entry(catalog: Seq<(GameInt, Item)>, e: (GameInt, Item)) -> bool {
    &&& spec_is_melee(e.1)
    &&& forall|j: int|
        0 <= j < catalog.len() && spec_same_display(e.1, (#[trigger] catalog[j]).1) ==> e.0
            <= catalog[j].0
}

/// The first `k` catalog entries that survive normalization, in order.
pub open spec fn normalize_prefix(catalog: Seq<(GameInt, Item)>, k: int) -> Seq<(GameInt, Item)>
    decreases k,
{
    if k <= 0 {
        Seq::empty()
    } else {
        normalize_prefix(catalog, k - 1) + (if spec_keep_entry(catalog, catalog[k - 1]) {
            seq![catalog[k - 1]]
        } else {
            Seq::empty()
        })
    }
}

/// The normalized catalog: melee-relevant entries, deduplicated down to the
/// lowest id per (name, equipment profile) class, in input order.
pub open spec fn normalize_spec(catalog: Seq<(GameInt, Item)>) -> Seq<(GameInt, Item)> {
    normalize_prefix(catalog, catalog.len() as int)
}

/// Normalize the catalog: keep melee gear only, and collapse items sharing a
/// name and equipment profile down to the lowest-id representative.
fn normalize_gear(catalog: Vec<(GameInt, Item)>) -> (r: Vec<(GameInt, Item)>)
    ensures
        r@ == normalize_spec(catalog@),
{
    let ghost orig = catalog@;
    let mut keep: Vec<bool> = Vec::new();
    let mut i: usize = 0;
    while i < catalog.len()
        invariant
            0 <= i <= catalog@.len(),
            catalog@ == orig,
            keep@.len() == i,
            forall|t: int| 0 <= t < i ==> keep@[t] == spec_keep_entry(orig, orig[t]),
        decreases catalog@.len() - i,
    {
        let mut ok = is_melee_gear(&catalog[i]);
        if ok {
            let mut j: usize = 0;
            while j < catalog.len()
                invariant
                    0 <= j <= catalog@.len(),
                    catalog@ == orig,
                    0 <= i < catalog@.len(),
                    ok == forall|t: int|
                        0 <= t < j && spec_same_display(orig[i as int].1, (#[trigger] orig[t]).1)
                            ==> orig[i as int].0 <= orig[t].0,
                decreases catalog@.len() - j,
            {
                if same_display(&catalog[i].1, &catalog[j].1) && catalog[j].0 < catalog[i].0 {
                    ok = false;
                }
                j = j + 1;
            }
        }
        keep.push(ok);
        i = i + 1;
    }
    let mut r: Vec<(GameInt, Item)> = Vec::new();
    let mut rest = catalog;
    let mut k: usize = 0;
    while rest.len() > 0
        invariant
            0 <= k <= orig.len() <= usize::MAX,
            k + rest@.len() == orig.len(),
            rest@ == orig.skip(k as int),
            keep@.len() == orig.len(),
            forall|t: int| 0 <= t < orig.len() ==> keep@[t] == spec_keep_entry(orig, orig[t]),
            r@ == normalize_prefix(orig, k as int),
        decreases rest@.len(),
    {
        let e = rest.remove(0);
        proof {
            assert(e == orig[k as int]);
            assert(rest@ =~= orig.skip(k + 1));
        }
        if keep[k] {
            r.push(e);
        }
        proof {
            assert(r@ =~= normalize_prefix(orig, k + 1));
        }
        k = k + 1;
    }
    proof {
        assert(k == orig.len());
    }
    r
}

/// An item's combat-relevant magnitudes stay inside the accepted range.
pub open spec fn spec_item_bounded(item: Item) -> bool {
    &&& -BONUS_LIMIT <= item.equipment.attack_stab <= BONUS_LIMIT
    &&& -BONUS_LIMIT <= item.equipment.attack_slash <= BONUS_LIMIT
    &&& -BONUS_LIMIT <= item.equipment.attack_crush <= BONUS_LIMIT
    &&& -BONUS_LIMIT <= item.equipment.melee_strength <= BONUS_LIMIT
    &&& match item.weapon {
        Option::None => true,
        Option::Some(w) => 1 <= w.attack_speed <= BONUS_LIMIT,
    }
}

fn item_bounded(item: &Item) -> (r: bool)
    ensures
        r == spec_item_bounded(*item),
{
    let weapon_ok = match &item.weapon {
        Option::None => true,
        Option::Some(w) => 1 <= w.attack_speed && w.attack_speed <= BONUS_LIMIT,
    };
    -BONUS_LIMIT <= item.equipment.attack_stab && item.equipment.attack_stab <= BONUS_LIMIT
        && -BONUS_LIMIT <= item.equipment.attack_slash && item.equipment.attack_slash
        <= BONUS_LIMIT && -BONUS_LIMIT <= item.equipment.attack_crush
        && item.equipment.attack_crush <= BONUS_LIMIT && -BONUS_LIMIT
        <= item.equipment.melee_strength && item.equipment.melee_strength <= BONUS_LIMIT
        && weapon_ok
}

/// Owns the normalized catalog and the breakpoint threshold lists, and
/// answers the per-slot availability queries of the successor search. Each
/// query is a pure function of (slot, breakpoint, catalog), so repeated
/// queries for one key always return the same groups.
pub struct GearCache {
    gear: Vec<(GameInt, Item)>,
    attack_breakpoints: Vec<GameInt>,
    strength_breakpoints: Vec<GameInt>,
    defence_breakpoints: Vec<GameInt>,
}

impl GearCache {
    /// The normalized catalog the cache owns.
    pub closed spec fn catalog(self) -> Seq<(GameInt, Item)> {
        self.gear@
    }

    pub closed spec fn attack_bps(self) -> Seq<GameInt> {
        self.attack_breakpoints@
    }

    pub closed spec fn strength_bps(self) -> Seq<GameInt> {
        self.strength_breakpoints@
    }

    pub closed spec fn defence_bps(self) -> Seq<GameInt> {
        self.defence_breakpoints@
    }

    /// A threshold list is strictly increasing with every tier in the valid
    /// level range.
    pub open spec fn bps_wf(bps: Seq<GameInt>) -> bool {
        &&& thresholds_sorted(bps)
        &&& forall|i: int| 0 <= i < bps.len() ==> 1 <= #[trigger] bps[i] <= LEVEL_CAP
    }

    /// Cache well-formedness: threshold lists are sorted and in range, and
    /// every owned item is bounded.
    pub open spec fn wf(self) -> bool {
        &&& Self::bps_wf(self.attack_bps())
        &&& Self::bps_wf(self.strength_bps())
        &&& Self::bps_wf(self.defence_bps())
        &&& forall|i: int|
            0 <= i < self.catalog().len() ==> spec_item_bounded((#[trigger] self.catalog()[i]).1)
    }

    /// Build the cache from the raw catalog: compute the three breakpoint
    /// lists from the full, unfiltered requirement data, then keep the
    /// normalized melee subset of the items.
    pub fn new(kind: GearKind, catalog: Vec<(GameInt, Item)>) -> (r: Self)
        requires
            forall|i: int|
                0 <= i < catalog@.len() ==> spec_item_bounded((#[trigger] catalog@[i]).1),
        ensures
            r.wf(),
            r.catalog() == normalize_spec(catalog@),
            thresholds_sorted(r.attack_bps()),
            forall|v: GameInt|
                r.attack_bps().contains(v) <==> is_threshold(catalog@, ReqStat::Attack, v),
            thresholds_sorted(r.strength_bps()),
            forall|v: GameInt|
                r.strength_bps().contains(v) <==> is_threshold(catalog@, ReqStat::Strength, v),
            thresholds_sorted(r.defence_bps()),
            forall|v: GameInt|
                r.defence_bps().contains(v) <==> is_threshold(catalog@, ReqStat::Defence, v),
    {
        let _ = kind;
        let attack_breakpoints = requirement_thresholds(&catalog, ReqStat::Attack);
        let strength_breakpoints = requirement_thresholds(&catalog, ReqStat::Strength);
        let defence_breakpoints = requirement_thresholds(&catalog, ReqStat::Defence);
        let ghost orig = catalog@;
        let gear = normalize_gear(catalog);
        proof {
            assert forall|i: int|
                0 <= i < gear@.len() implies spec_item_bounded((#[trigger] gear@[i]).1) by {
                lemma_normalize_prefix_sound(orig, orig.len() as int);
                let j = choose|j: int| 0 <= j < orig.len() && gear@[i] == #[trigger] orig[j];
            }
            assert forall|v: GameInt| attack_breakpoints@.contains(v) implies 1 <= v <= LEVEL_CAP by {
                assert(is_threshold(orig, ReqStat::Attack, v));
            }
            assert forall|v: GameInt| strength_breakpoints@.contains(v) implies 1 <= v
                <= LEVEL_CAP by {
                assert(is_threshold(orig, ReqStat::Strength, v));
            }
            assert forall|v: GameInt| defence_breakpoints@.contains(v) implies 1 <= v
                <= LEVEL_CAP by {
                assert(is_threshold(orig, ReqStat::Defence, v));
            }
            assert forall|i: int|
                0 <= i < attack_breakpoints@.len() implies 1 <= #[trigger] attack_breakpoints@[i]
                <= LEVEL_CAP by {
                assert(attack_breakpoints@.contains(attack_breakpoints@[i]));
            }
            assert forall|i: int|
                0 <= i < strength_breakpoints@.len() implies 1
                <= #[trigger] strength_breakpoints@[i] <= LEVEL_CAP by {
                assert(strength_breakpoints@.contains(strength_breakpoints@[i]));
            }
            assert forall|i: int|
                0 <= i < defence_breakpoints@.len() implies 1 <= #[trigger] defence_breakpoints@[i]
                <= LEVEL_CAP by {
                assert(defence_breakpoints@.contains(defence_breakpoints@[i]));
            }
        }
        GearCache { gear, attack_breakpoints, strength_breakpoints, defence_breakpoints }
    }

    /// Look an item up by id in the normalized catalog.
    pub fn get_by_id(&self, id: GameInt) -> (r: Option<&Item>)
        ensures
            match r {
                Option::Some(item) => exists|i: int|
                    0 <= i < self.catalog().len() && #[trigger] self.catalog()[i] == (id, *item),
                Option::None => forall|i: int|
                    0 <= i < self.catalog().len() ==> (#[trigger] self.catalog()[i]).0 != id,
            },
    {
        let mut i: usize = 0;
        while i < self.gear.len()
            invariant
                0 <= i <= self.catalog().len(),
                forall|t: int| 0 <= t < i ==> (#[trigger] self.catalog()[t]).0 != id,
            decreases self.catalog().len() - i,
        {
            if self.gear[i].0 == id {
                return Some(&self.gear[i].1);
            }
            i = i + 1;
        }
        Option::None
    }

    /// The breakpoint a raw stat triple quantizes to.
    pub open spec fn spec_get_breakpoint(self, attack: GameInt, strength: GameInt,
        defence: GameInt) -> Breakpoint {
        (quantize_spec(self.attack_bps(), attack), quantize_spec(self.strength_bps(), strength),
        quantize_spec(self.defence_bps(), defence))
    }

    /// A well-formed cache quantizes every stat triple into the valid level
    /// range.
    pub proof fn lemma_breakpoint_in_range(self, attack: GameInt, strength: GameInt,
        defence: GameInt)
        requires
            self.wf(),
        ensures
            1 <= self.spec_get_breakpoint(attack, strength, defence).0 <= LEVEL_CAP,
            1 <= self.spec_get_breakpoint(attack, strength, defence).1 <= LEVEL_CAP,
            1 <= self.spec_get_breakpoint(attack, strength, defence).2 <= LEVEL_CAP,
    {
        crate::breakpoints::lemma_quantize_bounds(self.attack_bps(), attack);
        crate::breakpoints::lemma_quantize_bounds(self.strength_bps(), strength);
        crate::breakpoints::lemma_quantize_bounds(self.defence_bps(), defence);
        let qa = quantize_spec(self.attack_bps(), attack);
        if qa != 1 {
            let i = choose|i: int| 0 <= i < self.attack_bps().len() && self.attack_bps()[i] == qa;
        }
        let qs = quantize_spec(self.strength_bps(), strength);
        if qs != 1 {
            let i = choose|i: int|
                0 <= i < self.strength_bps().len() && self.strength_bps()[i] == qs;
        }
        let qd = quantize_spec(self.defence_bps(), defence);
        if qd != 1 {
            let i = choose|i: int|
                0 <= i < self.defence_bps().len() && self.defence_bps()[i] == qd;
        }
    }

    /// Quantize a raw stat triple down to its breakpoint.
    pub fn get_breakpoint(&self, attack: GameInt, strength: GameInt, defence: GameInt) -> (r:
        Breakpoint)
        ensures
            r == self.spec_get_breakpoint(attack, strength, defence),
    {
        let attack = check_breakpoint(&self.attack_breakpoints, attack);
        let strength = check_breakpoint(&self.strength_breakpoints, strength);
        let defence = check_breakpoint(&self.defence_breakpoints, defence);
        (attack, strength, defence)
    }
}

/// An item is available at a stat profile: the requirements it declares are
/// met; an item with no requirements qualifies only when it is not a weapon
/// (an unrestricted weapon is a data anomaly and is treated as unusable).
pub open spec fn spec_item_available(item: Item, stats: Stats) -> bool {
    match item.equipment.requirements {
        Option::Some(reqs) => reqs.spec_has_requirements(stats),
        Option::None => item.weapon.is_none(),
    }
}

fn item_available(item: &Item, stats: &Stats) -> (r: bool)
    ensures
        r == spec_item_available(*item, *stats),
{
    match &item.equipment.requirements {
        Option::Some(reqs) => reqs.has_requirements(stats),
        Option::None => item.weapon.is_none(),
    }
}

/// The surviving variants of the first `k` catalog entries that sit in
/// `slot` and are available at `stats`, in catalog order.
pub open spec fn slot_variants_prefix(
    catalog: Seq<(GameInt, Item)>,
    slot: Slot,
    stats: Stats,
    k: int,
) -> Seq<DecomposedItem>
    decreases k,
{
    if k <= 0 {
        Seq::empty()
    } else {
        slot_variants_prefix(catalog, slot, stats, k - 1) + (if catalog[k - 1].1.equipment.slot
            == slot && spec_item_available(catalog[k - 1].1, stats) {
            filter_ok(spec_decompose_item(catalog[k - 1].1))
        } else {
            Seq::empty()
        })
    }
}

/// All surviving variants of the catalog entries in `slot` available at
/// `stats`.
pub open spec fn slot_variants(catalog: Seq<(GameInt, Item)>, slot: Slot, stats: Stats)
    -> Seq<DecomposedItem> {
    slot_variants_prefix(catalog, slot, stats, catalog.len() as int)
}

/// Some variant in `vs` carries this damage type and style.
pub open spec fn bucket_nonempty(vs: Seq<DecomposedItem>, t: AttackType,
    st: Option<AttackStyle>) -> bool {
    exists|i: int|
        0 <= i < vs.len() && (#[trigger] vs[i]).attack_type == t && vs[i].attack_style == st
}

/// A group belongs to the (damage type, style) bucket.
pub open spec fn in_bucket(g: ItemGroup, t: AttackType, st: Option<AttackStyle>) -> bool {
    g.attack_type == t && g.attack_style == st
}

impl GearCache {
    /// The style key a slot queries under: only the weapon slot keeps the
    /// training style; every other slot is style-agnostic.
    pub open spec fn spec_slot_style(slot: Slot, attack_style: AttackStyle)
        -> Option<AttackStyle> {
        if slot == Slot::Weapon {
            Some(attack_style)
        } else {
            Option::None
        }
    }

    /// The pruned-input equivalence groups available in `slot` at
    /// `breakpoint` for one damage type and style: the grouping of the
    /// qualifying variants restricted to that bucket, or exactly one empty
    /// group when no variant qualifies, so a cross-product over slots is
    /// never empty.
    pub fn get_by_slot_full(
        &self,
        slot: Slot,
        breakpoint: Breakpoint,
        attack_type: AttackType,
        attack_style: AttackStyle,
    ) -> (r: Vec<ItemGroup>)
        requires
            self.wf(),
            1 <= breakpoint.0 <= LEVEL_CAP,
            1 <= breakpoint.1 <= LEVEL_CAP,
            1 <= breakpoint.2 <= LEVEL_CAP,
        ensures
            ({
                let stats = spec_breakpoint_stats(breakpoint);
                let vs = slot_variants(self.catalog(), slot, stats);
                let st = Self::spec_slot_style(slot, attack_style);
                if bucket_nonempty(vs, attack_type, st) {
                    &&& forall|i: int|
                        0 <= i < r@.len() ==> (in_bucket(#[trigger] r@[i], attack_type, st)
                            && r@[i].item_ids@.len() > 0 && r@[i].item_ids@.to_multiset()
                            == ids_with_key(vs, gkey(r@[i])))
                    &&& forall|a: int, b: int|
                        0 <= a < b < r@.len() ==> key_lt(gkey(#[trigger] r@[a]), gkey(
                            #[trigger] r@[b],
                        ))
                    &&& forall|i: int|
                        0 <= i < vs.len() && (#[trigger] vs[i]).attack_type == attack_type
                            && vs[i].attack_style == st ==> has_group_for(r@, vs[i])
                } else {
                    &&& r@.len() == 1
                    &&& r@[0].item_ids@.len() == 0
                    &&& r@[0].attack_value == 0
                    &&& r@[0].strength_value == 0
                    &&& r@[0].attack_type == attack_type
                    &&& r@[0].attack_style.is_none()
                    &&& r@[0].attack_speed.is_none()
                }
            }),
    {
        let stats = breakpoint_stats(breakpoint);
        let ghost vs = slot_variants(self.catalog(), slot, stats);
        let mut variants: Vec<DecomposedItem> = Vec::new();
        let mut i: usize = 0;
        while i < self.gear.len()
            invariant
                0 <= i <= self.catalog().len(),
                stats == spec_breakpoint_stats(breakpoint),
                variants@ == slot_variants_prefix(self.catalog(), slot, stats, i as int),
            decreases self.catalog().len() - i,
        {
            let entry = &self.gear[i];
            if entry.1.equipment.slot == slot && item_available(&entry.1, &stats) {
                let mut dv = decompose_item(&entry.1);
                let ghost dvs = dv@;
                let ghost base = variants@;
                let mut jj: usize = 0;
                while jj < dv.len()
                    invariant
                        0 <= jj <= dvs.len(),
                        dv@ == dvs,
                        variants@ == base + filter_ok(dvs.take(jj as int)),
                    decreases dvs.len() - jj,
                {
                    let keepv = exec_variant_ok(&dv[jj]);
                    proof {
                        assert(dvs.take(jj + 1).drop_last() =~= dvs.take(jj as int));
                    }
                    if keepv {
                        variants.push(dv[jj]);
                    }
                    proof {
                        assert(variants@ =~= base + filter_ok(dvs.take(jj + 1)));
                    }
                    jj = jj + 1;
                }
                proof {
                    assert(dvs.take(dvs.len() as int) =~= dvs);
                }
            }
            proof {
                assert(variants@ =~= slot_variants_prefix(self.catalog(), slot, stats, i + 1));
            }
            i = i + 1;
        }
        proof {
            assert(variants@ == vs);
        }
        let groups = group_collected(&variants);
        let st = match slot {
            Slot::Weapon => Some(attack_style),
            _ => Option::None,
        };
        let mut bucket: Vec<ItemGroup> = Vec::new();
        let mut b: usize = 0;
        while b < groups.len()
            invariant
                0 <= b <= groups@.len(),
                is_grouping(groups@, vs),
                st == Self::spec_slot_style(slot, attack_style),
                forall|x: int| 0 <= x < bucket@.len() ==> (in_bucket(#[trigger] bucket@[x],
                    attack_type, st) && bucket@[x].item_ids@.len() > 0
                    && bucket@[x].item_ids@.to_multiset() == ids_with_key(vs, gkey(bucket@[x]))),
                forall|x: int, y: int| 0 <= x < y < bucket@.len() ==> key_lt(
                    gkey(#[trigger] bucket@[x]),
                    gkey(#[trigger] bucket@[y]),
                ),
                forall|x: int| 0 <= x < bucket@.len() ==> exists|gb: int|
                    0 <= gb < b && group_matches(#[trigger] bucket@[x], groups@[gb]),
                forall|gb: int| 0 <= gb < b && in_bucket(#[trigger] groups@[gb], attack_type, st)
                    ==> exists|x: int|
                    0 <= x < bucket@.len() && group_matches(#[trigger] groups@[gb], bucket@[x]),
            decreases groups@.len() - b,
        {
            let g = &groups[b];
            let type_match = g.attack_type == attack_type;
            let style_match = match (g.attack_style, st) {
                (Option::None, Option::None) => true,
                (Option::Some(x), Option::Some(y)) => x == y,
                _ => false,
            };
            if type_match && style_match {
                let ghost pre = bucket@;
                bucket.push(g.duplicate());
                proof {
                    let nlast = bucket@.len() - 1;
                    lemma_grouping_at(groups@, vs, b as int);
                    assert(group_matches(bucket@[nlast], groups@[b as int]));
                    assert(gkey(bucket@[nlast]) == gkey(groups@[b as int]));
                    assert(in_bucket(bucket@[nlast], attack_type, st));
                    assert forall|x: int| 0 <= x < bucket@.len() implies (in_bucket(
                        #[trigger] bucket@[x],
                        attack_type,
                        st,
                    ) && bucket@[x].item_ids@.len() > 0 && bucket@[x].item_ids@.to_multiset()
                        == ids_with_key(vs, gkey(bucket@[x]))) by {
                        if x < nlast {
                            assert(bucket@[x] == pre[x]);
                        }
                    }
                    assert forall|x: int, y: int| 0 <= x < y < bucket@.len() implies key_lt(
                        gkey(#[trigger] bucket@[x]),
                        gkey(#[trigger] bucket@[y]),
                    ) by {
                        if y == nlast {
                            assert(bucket@[x] == pre[x]);
                            let gb = choose|gb: int|
                                0 <= gb < b && group_matches(#[trigger] bucket@[x], groups@[gb]);
                            assert(key_lt(gkey(groups@[gb]), gkey(groups@[b as int])));
                            assert(gkey(bucket@[x]) == gkey(groups@[gb]));
                            assert(gkey(bucket@[y]) == gkey(groups@[b as int]));
                        } else {
                            assert(bucket@[x] == pre[x] && bucket@[y] == pre[y]);
                        }
                    }
                    assert forall|gb: int|
                        0 <= gb < b + 1 && in_bucket(#[trigger] groups@[gb], attack_type, st)
                        implies exists|x: int|
                        0 <= x < bucket@.len() && group_matches(#[trigger] groups@[gb], bucket@[x]) by {
                        if gb < b {
                            let x = choose|x: int|
                                0 <= x < pre.len() && group_matches(#[trigger] groups@[gb], pre[x]);
                            assert(bucket@[x] == pre[x]);
                            assert(group_matches(groups@[gb], bucket@[x]));
                        } else {
                            assert(group_matches(groups@[gb], bucket@[nlast]));
                        }
                    }
                    assert forall|x: int| 0 <= x < bucket@.len() implies exists|gb: int|
                        0 <= gb < b + 1 && group_matches(#[trigger] bucket@[x], groups@[gb]) by {
                        if x < nlast {
                            assert(bucket@[x] == pre[x]);
                            let gb = choose|gb: int|
                                0 <= gb < b && group_matches(#[trigger] pre[x], groups@[gb]);
                            assert(group_matches(bucket@[x], groups@[gb]));
                        } else {
                            assert(group_matches(bucket@[x], groups@[b as int]));
                        }
                    }
                }
            } else {
                proof {
                    assert(!in_bucket(groups@[b as int], attack_type, st));
                }
            }
            b = b + 1;
        }
        if bucket.len() == 0 {
            proof {
                if bucket_nonempty(vs, attack_type, st) {
                    let vi = choose|vi: int|
                        0 <= vi < vs.len() && (#[trigger] vs[vi]).attack_type == attack_type
                            && vs[vi].attack_style == st;
                    assert(has_group_for(groups@, vs[vi]));
                    let ga = choose|ga: int|
                        0 <= ga < groups@.len() && key_eq(gkey(#[trigger] groups@[ga]), vs[vi]);
                    assert(in_bucket(groups@[ga], attack_type, st));
                    assert(false);
                }
            }
            let mut fallback: Vec<ItemGroup> = Vec::new();
            fallback.push(ItemGroup::empty_group(attack_type));
            return fallback;
        }
        proof {
            assert forall|vi: int|
                0 <= vi < vs.len() && (#[trigger] vs[vi]).attack_type == attack_type
                    && vs[vi].attack_style == st implies has_group_for(bucket@, vs[vi]) by {
                assert(has_group_for(groups@, vs[vi]));
                let ga = choose|ga: int|
                    0 <= ga < groups@.len() && key_eq(gkey(#[trigger] groups@[ga]), vs[vi]);
                assert(in_bucket(groups@[ga], attack_type, st));
                let x = choose|x: int|
                    0 <= x < bucket@.len() && group_matches(#[trigger] groups@[ga], bucket@[x]);
                assert(gkey(bucket@[x]) == gkey(groups@[ga]));
                assert(key_eq(gkey(bucket@[x]), vs[vi]));
            }
            if !bucket_nonempty(vs, attack_type, st) {
                assert(bucket@.len() > 0);
                assert(bucket@[0].item_ids@.len() > 0);
                assert(bucket@[0].item_ids@.to_multiset() != Multiset::<GameInt>::empty()) by {
                    broadcast use vstd::seq_lib::group_to_multiset_ensures;

                    bucket@[0].item_ids@.to_multiset_ensures();
                    vstd::multiset::lemma_multiset_empty_len(bucket@[0].item_ids@.to_multiset());
                }
                lemma_ids_with_key_mem(vs, gkey(bucket@[0]));
                let vi = choose|vi: int| 0 <= vi < vs.len() && key_eq(#[trigger] vs[vi], gkey(
                    bucket@[0],
                ));
                assert(vs[vi].attack_type == attack_type && vs[vi].attack_style == st);
                assert(false);
            }
        }
        bucket
    }
}

/// A raw variant's magnitudes, inherited from a bounded item.
pub open spec fn variant_in_limits(v: DecomposedItem) -> bool {
    &&& -BONUS_LIMIT <= v.attack_value <= BONUS_LIMIT
    &&& -BONUS_LIMIT <= v.strength_value <= BONUS_LIMIT
    &&& match v.attack_speed {
        Option::None => true,
        Option::Some(sp) => 1 <= sp <= BONUS_LIMIT,
    }
}

pub proof fn lemma_decompose_one_in_limits(item: Item, t: AttackType, st: AttackStyle)
    requires
        spec_item_bounded(item),
    ensures
        match crate::item_group::spec_decompose_one(item, t, st) {
            Option::None => true,
            Option::Some(v) => variant_in_limits(v),
        },
{
    reveal(crate::item_group::spec_decompose_one);
}

pub proof fn lemma_decompose_prefix_in_limits(item: Item, k: int)
    requires
        spec_item_bounded(item),
        0 <= k <= 9,
    ensures
        forall|i: int|
            0 <= i < crate::item_group::spec_decompose_prefix(item, k).len()
                ==> variant_in_limits(#[trigger] crate::item_group::spec_decompose_prefix(item, k)[i]),
    decreases k,
{
    if k > 0 {
        lemma_decompose_prefix_in_limits(item, k - 1);
        let pair = crate::item_group::decompose_pair_at(k - 1);
        lemma_decompose_one_in_limits(item, pair.0, pair.1);
        let cur = crate::item_group::spec_decompose_prefix(item, k);
        let prev = crate::item_group::spec_decompose_prefix(item, k - 1);
        assert forall|i: int| 0 <= i < cur.len() implies variant_in_limits(#[trigger] cur[i]) by {
            if i < prev.len() {
                assert(cur[i] == prev[i]);
            }
        }
    }
}

pub proof fn lemma_filter_ok_in_limits(s: Seq<DecomposedItem>)
    requires
        forall|i: int| 0 <= i < s.len() ==> variant_in_limits(#[trigger] s[i]),
    ensures
        forall|i: int|
            0 <= i < filter_ok(s).len() ==> variant_in_limits(#[trigger] filter_ok(s)[i]),
    decreases s.len(),
{
    if s.len() > 0 {
        assert(forall|i: int|
            0 <= i < s.drop_last().len() ==> variant_in_limits(#[trigger] s.drop_last()[i]));
        lemma_filter_ok_in_limits(s.drop_last());
        let f = filter_ok(s);
        let fd = filter_ok(s.drop_last());
        assert forall|i: int| 0 <= i < f.len() implies variant_in_limits(#[trigger] f[i]) by {
            if i < fd.len() {
                assert(f[i] == fd[i]);
            } else {
                assert(f[i] == s.last());
            }
        }
    }
}

/// Every qualifying variant of a bounded catalog is a surviving variant with
/// in-range magnitudes.
pub proof fn lemma_slot_variants_sound(catalog: Seq<(GameInt, Item)>, slot: Slot, stats: Stats,
    k: int)
    requires
        forall|i: int| 0 <= i < catalog.len() ==> spec_item_bounded((#[trigger] catalog[i]).1),
        0 <= k <= catalog.len(),
    ensures
        forall|i: int|
            0 <= i < slot_variants_prefix(catalog, slot, stats, k).len() ==> (
            crate::item_group::variant_ok(
                #[trigger] slot_variants_prefix(catalog, slot, stats, k)[i],
            ) && variant_in_limits(slot_variants_prefix(catalog, slot, stats, k)[i])),
    decreases k,
{
    if k > 0 {
        lemma_slot_variants_sound(catalog, slot, stats, k - 1);
        let cur = slot_variants_prefix(catalog, slot, stats, k);
        let prev = slot_variants_prefix(catalog, slot, stats, k - 1);
        let item = catalog[k - 1].1;
        lemma_decompose_prefix_in_limits(item, 9);
        crate::item_group::lemma_filter_ok_all(spec_decompose_item(item));
        lemma_filter_ok_in_limits(spec_decompose_item(item));
        assert forall|i: int| 0 <= i < cur.len() implies (crate::item_group::variant_ok(
            #[trigger] cur[i],
        ) && variant_in_limits(cur[i])) by {
            if i < prev.len() {
                assert(cur[i] == prev[i]);
            } else {
                assert(cur[i] == filter_ok(spec_decompose_item(item))[i - prev.len()]);
            }
        }
    }
}

/// `g` is one of the groups the bucket query for (`slot`, `bp`, Slash,
/// `style`) answers with: a bucket group collecting exactly the ids of the
/// qualifying variants with its key, or the empty fallback group when no
/// variant qualifies for the bucket.
#[verifier::opaque]
pub open spec fn group_in_slot_bucket(cache: GearCache, slot: Slot, bp: Breakpoint,
    style: AttackStyle, g: ItemGroup) -> bool {
    let stats = spec_breakpoint_stats(bp);
    let vs = slot_variants(cache.catalog(), slot, stats);
    let st = GearCache::spec_slot_style(slot, style);
    if bucket_nonempty(vs, AttackType::Slash, st) {
        &&& in_bucket(g, AttackType::Slash, st)
        &&& g.item_ids@.len() > 0
        &&& g.item_ids@.to_multiset() == ids_with_key(vs, gkey(g))
    } else {
        &&& g.item_ids@.len() == 0
        &&& g.attack_value == 0
        &&& g.strength_value == 0
        &&& g.attack_type == AttackType::Slash
        &&& g.attack_style.is_none()
        &&& g.attack_speed.is_none()
    }
}

/// Some qualifying Slash variant for this slot and style carries a cadence.
#[verifier::opaque]
pub open spec fn slot_cadence_variant(cache: GearCache, slot: Slot, bp: Breakpoint,
    style: AttackStyle) -> bool {
    let stats = spec_breakpoint_stats(bp);
    let vs = slot_variants(cache.catalog(), slot, stats);
    let st = GearCache::spec_slot_style(slot, style);
    exists|i: int|
        0 <= i < vs.len() && (#[trigger] vs[i]).attack_type == AttackType::Slash
            && vs[i].attack_style == st && vs[i].attack_speed.is_some()
}

/// Some qualifying Slash variant carries a cadence other than the default
/// tier-1 cadence.
pub open spec fn slot_fast_cadence_variant(cache: GearCache, slot: Slot, bp: Breakpoint,
    style: AttackStyle) -> bool {
    let stats = spec_breakpoint_stats(bp);
    let vs = slot_variants(cache.catalog(), slot, stats);
    let st = GearCache::spec_slot_style(slot, style);
    exists|i: int|
        0 <= i < vs.len() && (#[trigger] vs[i]).attack_type == AttackType::Slash
            && vs[i].attack_style == st && vs[i].attack_speed.is_some()
            && vs[i].attack_speed != Some(1int as GameInt)
}

/// Every group the bucket query may answer with is covered, in its cadence
/// bucket, by one of the pruned survivors.
proof fn lemma_pruned_covers_bucket(cache: GearCache, slot: Slot, bp: Breakpoint,
    style: AttackStyle, full: Seq<ItemGroup>, pruned: Seq<ItemGroup>)
    requires
        ({
            let stats = spec_breakpoint_stats(bp);
            let vs = slot_variants(cache.catalog(), slot, stats);
            let st = GearCache::spec_slot_style(slot, style);
            if bucket_nonempty(vs, AttackType::Slash, st) {
                forall|i: int|
                    0 <= i < vs.len() && (#[trigger] vs[i]).attack_type == AttackType::Slash
                        && vs[i].attack_style == st ==> has_group_for(full, vs[i])
            } else {
                full.len() == 1 && full[0].attack_value == 0 && full[0].strength_value == 0
                    && full[0].attack_speed.is_none()
            }
        }),
        forall|j: int| 0 <= j < full.len() ==> crate::item_group::covered_by(#[trigger] full[j], pruned),
    ensures
        forall|g: ItemGroup|
            #[trigger] group_in_slot_bucket(cache, slot, bp, style, g) ==> exists|i: int|
                0 <= i < pruned.len() && crate::item_group::eff_speed(#[trigger] pruned[i])
                    == crate::item_group::eff_speed(g) && crate::item_group::dominates(
                    pruned[i],
                    g,
                ),
{
    reveal(group_in_slot_bucket);
    let stats = spec_breakpoint_stats(bp);
    let vs = slot_variants(cache.catalog(), slot, stats);
    let st = GearCache::spec_slot_style(slot, style);
    assert forall|g: ItemGroup|
        #[trigger] group_in_slot_bucket(cache, slot, bp, style, g) implies exists|i: int|
        0 <= i < pruned.len() && crate::item_group::eff_speed(#[trigger] pruned[i])
            == crate::item_group::eff_speed(g) && crate::item_group::dominates(pruned[i], g) by {
        if bucket_nonempty(vs, AttackType::Slash, st) {
            broadcast use vstd::seq_lib::group_to_multiset_ensures;

            g.item_ids@.to_multiset_ensures();
            vstd::multiset::lemma_multiset_empty_len(g.item_ids@.to_multiset());
            lemma_ids_with_key_mem(vs, gkey(g));
            let vi = choose|vi: int| 0 <= vi < vs.len() && key_eq(#[trigger] vs[vi], gkey(g));
            assert(has_group_for(full, vs[vi]));
            let a = choose|a: int| 0 <= a < full.len() && key_eq(gkey(#[trigger] full[a]), vs[vi]);
            assert(full[a].attack_value == g.attack_value && full[a].strength_value
                == g.strength_value && full[a].attack_speed == g.attack_speed);
            assert(crate::item_group::covered_by(full[a], pruned));
            let c = choose|c: int|
                0 <= c < pruned.len() && crate::item_group::eff_speed(#[trigger] pruned[c])
                    == crate::item_group::eff_speed(full[a]) && crate::item_group::dominates(
                    pruned[c],
                    full[a],
                );
            assert(crate::item_group::eff_speed(pruned[c]) == crate::item_group::eff_speed(g)
                && crate::item_group::dominates(pruned[c], g));
        } else {
            assert(crate::item_group::covered_by(full[0], pruned));
            let c = choose|c: int|
                0 <= c < pruned.len() && crate::item_group::eff_speed(#[trigger] pruned[c])
                    == crate::item_group::eff_speed(full[0]) && crate::item_group::dominates(
                    pruned[c],
                    full[0],
                );
            assert(crate::item_group::eff_speed(full[0]) == crate::item_group::eff_speed(g));
            assert(crate::item_group::eff_speed(pruned[c]) == crate::item_group::eff_speed(g)
                && crate::item_group::dominates(pruned[c], g));
        }
    }
}

/// The dominance-pruned candidate groups for one slot at a breakpoint,
/// querying the Slash damage type under the given training style.
#[verifier::rlimit(90)]
#[verifier::spinoff_prover]
pub fn slot_candidates(cache: &GearCache, slot: Slot, bp: Breakpoint, style: AttackStyle) -> (r:
    Vec<ItemGroup>)
    requires
        cache.wf(),
        1 <= bp.0 <= LEVEL_CAP,
        1 <= bp.1 <= LEVEL_CAP,
        1 <= bp.2 <= LEVEL_CAP,
    ensures
        crate::level::groups_bounded(r@),
        r@.len() >= 1,
        forall|i: int|
            0 <= i < r@.len() ==> group_in_slot_bucket(*cache, slot, bp, style, #[trigger] r@[i]),
        !slot_cadence_variant(*cache, slot, bp, style) ==> forall|i: int|
            0 <= i < r@.len() ==> (#[trigger] r@[i]).attack_speed.is_none(),
        slot_fast_cadence_variant(*cache, slot, bp, style) ==> exists|i: int|
            0 <= i < r@.len() && (#[trigger] r@[i]).attack_speed.is_some(),
        forall|g: ItemGroup|
            #[trigger] group_in_slot_bucket(*cache, slot, bp, style, g) ==> exists|i: int|
                0 <= i < r@.len() && crate::item_group::eff_speed(#[trigger] r@[i])
                    == crate::item_group::eff_speed(g) && crate::item_group::dominates(r@[i], g),
{
    let full = cache.get_by_slot_full(slot, bp, AttackType::Slash, style);
    let pruned = crate::item_group::filter_elided_items(&full);
    proof {
        reveal(group_in_slot_bucket);
        reveal(slot_cadence_variant);
        reveal(slot_fast_cadence_variant);
        let stats = spec_breakpoint_stats(bp);
        let vs = slot_variants(cache.catalog(), slot, stats);
        let st = GearCache::spec_slot_style(slot, style);
        lemma_slot_variants_sound(cache.catalog(), slot, stats, cache.catalog().len() as int);
        assert forall|i: int|
            0 <= i < full@.len() implies (group_in_slot_bucket(*cache, slot, bp, style,
            #[trigger] full@[i]) && crate::level::group_bounded(full@[i])) by {
            if bucket_nonempty(vs, AttackType::Slash, st) {
                broadcast use vstd::seq_lib::group_to_multiset_ensures;

                full@[i].item_ids@.to_multiset_ensures();
                vstd::multiset::lemma_multiset_empty_len(full@[i].item_ids@.to_multiset());
                lemma_ids_with_key_mem(vs, gkey(full@[i]));
                let vi = choose|vi: int|
                    0 <= vi < vs.len() && key_eq(#[trigger] vs[vi], gkey(full@[i]));
                assert(crate::item_group::variant_ok(vs[vi]) && variant_in_limits(vs[vi]));
            }
        }
        assert forall|i: int|
            0 <= i < pruned@.len() implies (group_in_slot_bucket(*cache, slot, bp, style,
            #[trigger] pruned@[i]) && crate::level::group_bounded(pruned@[i])) by {
            assert(crate::item_group::appears_in(pruned@[i], full@));
            let j = choose|j: int|
                0 <= j < full@.len() && group_matches(pruned@[i], #[trigger] full@[j]);
            assert(group_in_slot_bucket(*cache, slot, bp, style, full@[j]));
            assert(crate::level::group_bounded(full@[j]));
        }
        assert(pruned@.len() >= 1) by {
            assert(full@.len() >= 1) by {
                if bucket_nonempty(vs, AttackType::Slash, st) {
                    let vi = choose|vi: int|
                        0 <= vi < vs.len() && (#[trigger] vs[vi]).attack_type == AttackType::Slash
                            && vs[vi].attack_style == st;
                    assert(has_group_for(full@, vs[vi]));
                    let a = choose|a: int|
                        0 <= a < full@.len() && key_eq(gkey(#[trigger] full@[a]), vs[vi]);
                }
            }
            assert(crate::item_group::covered_by(full@[0], pruned@));
            let c = choose|c: int|
                0 <= c < pruned@.len() && crate::item_group::eff_speed(#[trigger] pruned@[c])
                    == crate::item_group::eff_speed(full@[0]) && crate::item_group::dominates(
                    pruned@[c],
                    full@[0],
                );
        }
        if !slot_cadence_variant(*cache, slot, bp, style) {
            assert forall|i: int| 0 <= i < pruned@.len() implies (#[trigger] pruned@[i])
                .attack_speed.is_none() by {
                if pruned@[i].attack_speed.is_some() {
                    let j = choose|j: int|
                        0 <= j < full@.len() && group_matches(pruned@[i], #[trigger] full@[j]);
                    assert(group_in_slot_bucket(*cache, slot, bp, style, full@[j]));
                    assert(full@[j].attack_speed.is_some());
                    assert(bucket_nonempty(vs, AttackType::Slash, st));
                    broadcast use vstd::seq_lib::group_to_multiset_ensures;

                    full@[j].item_ids@.to_multiset_ensures();
                    vstd::multiset::lemma_multiset_empty_len(full@[j].item_ids@.to_multiset());
                    lemma_ids_with_key_mem(vs, gkey(full@[j]));
                    let vi = choose|vi: int|
                        0 <= vi < vs.len() && key_eq(#[trigger] vs[vi], gkey(full@[j]));
                    assert(vs[vi].attack_type == AttackType::Slash && vs[vi].attack_style == st
                        && vs[vi].attack_speed.is_some());
                    assert(false);
                }
            }
        }
        lemma_pruned_covers_bucket(*cache, slot, bp, style, full@, pruned@);
        if slot_fast_cadence_variant(*cache, slot, bp, style) {
            let vi = choose|vi: int|
                0 <= vi < vs.len() && (#[trigger] vs[vi]).attack_type == AttackType::Slash
                    && vs[vi].attack_style == st && vs[vi].attack_speed.is_some()
                    && vs[vi].attack_speed != Some(1int as GameInt);
            assert(bucket_nonempty(vs, AttackType::Slash, st));
            assert(has_group_for(full@, vs[vi]));
            let a = choose|a: int|
                0 <= a < full@.len() && key_eq(gkey(#[trigger] full@[a]), vs[vi]);
            assert(full@[a].attack_speed == vs[vi].attack_speed);
            assert(crate::item_group::covered_by(full@[a], pruned@));
            let c = choose|c: int|
                0 <= c < pruned@.len() && crate::item_group::eff_speed(#[trigger] pruned@[c])
                    == crate::item_group::eff_speed(full@[a]) && crate::item_group::dominates(
                    pruned@[c],
                    full@[a],
                );
            assert(pruned@[c].attack_speed.is_some()) by {
                if pruned@[c].attack_speed.is_none() {
                    assert(crate::item_group::eff_speed(pruned@[c]) == 1);
                    assert(crate::item_group::eff_speed(full@[a]) == 1);
                    assert(full@[a].attack_speed == Some(1int as GameInt));
                    assert(false);
                }
            }
        }
    }
    pruned
}

impl ItemGroup {
    /// A display name for the group: the name of the lowest-id contributing
    /// item with a "-like group" suffix, or "Nothing" for the empty group.
    pub fn group_name(&self, gear_cache: &GearCache) -> (r: String)
        requires
            forall|k: int|
                0 <= k < self.item_ids@.len() ==> exists|i: int|
                    0 <= i < gear_cache.catalog().len() && (#[trigger] gear_cache.catalog()[i]).0
                        == #[trigger] self.item_ids@[k],
        ensures
            self.item_ids@.len() == 0 ==> r@ == "Nothing"@,
            self.item_ids@.len() > 0 ==> exists|i: int|
                {
                    &&& 0 <= i < gear_cache.catalog().len()
                    &&& (forall|k: int|
                        0 <= k < self.item_ids@.len() ==> (#[trigger] gear_cache.catalog()[i]).0
                            <= self.item_ids@[k])
                    &&& self.item_ids@.contains(gear_cache.catalog()[i].0)
                    &&& r@ == gear_cache.catalog()[i].1.name@ + "-like group"@
                },
    {
        let id = match self.group_identifier() {
            Option::None => {
                return "Nothing".to_owned();
            },
            Option::Some(id) => id,
        };
        proof {
            let k = choose|k: int| 0 <= k < self.item_ids@.len() && self.item_ids@[k] == id;
        }
        let item = match gear_cache.get_by_id(id) {
            Option::None => {
                // unreachable: every recorded id is in the catalog
                proof {
                    let k = choose|k: int|
                        0 <= k < self.item_ids@.len() && self.item_ids@[k] == id;
                    let i = choose|i: int|
                        0 <= i < gear_cache.catalog().len() && (#[trigger] gear_cache.catalog()[i]).0
                            == self.item_ids@[k];
                    assert(false);
                }
                return "Nothing".to_owned();
            },
            Option::Some(item) => item,
        };
        let name = item.name.clone();
        let r = name.concat("-like group");
        proof {
            let i = choose|i: int|
                0 <= i < gear_cache.catalog().len() && #[trigger] gear_cache.catalog()[i] == (
                id,
                *item,
                );
            assert(0 <= i < gear_cache.catalog().len() && (forall|k: int|
                0 <= k < self.item_ids@.len() ==> (#[trigger] gear_cache.catalog()[i]).0
                    <= self.item_ids@[k]) && self.item_ids@.contains(gear_cache.catalog()[i].0)
                && r@ == gear_cache.catalog()[i].1.name@ + "-like group"@);
        }
        r
    }
}

/// Every normalized entry is one of the original entries.
pub proof fn lemma_normalize_prefix_sound(catalog: Seq<(GameInt, Item)>, k: int)
    requires
        k <= catalog.len(),
    ensures
        forall|i: int|
            0 <= i < normalize_prefix(catalog, k).len() ==> exists|j: int|
                0 <= j < catalog.len() && #[trigger] normalize_prefix(catalog, k)[i] == catalog[j],
    decreases k,
{
    if k > 0 {
        lemma_normalize_prefix_sound(catalog, k - 1);
        let cur = normalize_prefix(catalog, k);
        let prev = normalize_prefix(catalog, k - 1);
        assert forall|i: int| 0 <= i < cur.len() implies exists|j: int|
            0 <= j < catalog.len() && #[trigger] cur[i] == catalog[j] by {
            if i < prev.len() {
                assert(cur[i] == prev[i]);
                let j = choose|j: int| 0 <= j < catalog.len() && #[trigger] prev[i] == catalog[j];
                assert(cur[i] == catalog[j]);
            } else {
                assert(cur[i] == catalog[k - 1]);
            }
        }
    }
}

} // verus!
