//! Equivalence groups of catalog items: decomposing items into per
//! (damage type, style) variants, merging variants with identical
//! combat-relevant bonuses, and pruning dominated groups per cadence.
use vstd::prelude::*;

use crate::GameInt;
use crate::types::{opt_style_rank, spec_has_type_and_style, type_rank, AttackStyle, AttackType,
    Item, Slot, Stance, exec_opt_style_rank, exec_type_rank, has_type_and_style};
use vstd::multiset::Multiset;

verus! {

/// An equivalence class of catalog items sharing the same combat-relevant
/// bonuses, damage type, style and cadence. The ids refer back into the
/// catalog; the lowest one represents the group.
#[derive(Debug)]
pub struct ItemGroup {
    pub item_ids: Vec<GameInt>,
    pub attack_value: GameInt,
    pub strength_value: GameInt,
    pub attack_type: AttackType,
    pub attack_style: Option<AttackStyle>,
    pub attack_speed: Option<GameInt>,
}

/// One per-(damage type, style) variant of a catalog item.
#[derive(Clone, Copy, Debug, PartialEq, Eq, Structural)]
pub struct DecomposedItem {
    pub id: GameInt,
    pub attack_value: GameInt,
    pub strength_value: GameInt,
    pub attack_type: AttackType,
    pub attack_style: Option<AttackStyle>,
    pub attack_speed: Option<GameInt>,
}

/// Two groups hold exactly the same data.
pub open spec fn group_matches(a: ItemGroup, b: ItemGroup) -> bool {
    &&& a.item_ids@ == b.item_ids@
    &&& a.attack_value == b.attack_value
    &&& a.strength_value == b.strength_value
    &&& a.attack_type == b.attack_type
    &&& a.attack_style == b.attack_style
    &&& a.attack_speed == b.attack_speed
}

impl ItemGroup {
    /// An exact copy of this group.
    pub fn duplicate(&self) -> (r: ItemGroup)
        ensures
            group_matches(r, *self),
    {
        let mut ids: Vec<GameInt> = Vec::new();
        let mut i: usize = 0;
        while i < self.item_ids.len()
            invariant
                0 <= i <= self.item_ids@.len(),
                ids@ == self.item_ids@.take(i as int),
            decreases self.item_ids@.len() - i,
        {
            ids.push(self.item_ids[i]);
            proof {
                assert(ids@ =~= self.item_ids@.take(i + 1));
            }
            i = i + 1;
        }
        proof {
            assert(self.item_ids@.take(i as int) =~= self.item_ids@);
        }
        ItemGroup {
            item_ids: ids,
            attack_value: self.attack_value,
            strength_value: self.strength_value,
            attack_type: self.attack_type,
            attack_style: self.attack_style,
            attack_speed: self.attack_speed,
        }
    }

    /// The group that stands for wearing nothing useful in a slot: no items,
    /// zero bonuses, no style, no cadence.
    pub fn empty_group(attack_type: AttackType) -> (r: Self)
        ensures
            r.item_ids@.len() == 0,
            r.attack_value == 0,
            r.strength_value == 0,
            r.attack_type == attack_type,
            r.attack_style.is_none(),
            r.attack_speed.is_none(),
    {
        ItemGroup {
            item_ids: Vec::new(),
            attack_value: 0,
            strength_value: 0,
            attack_type: attack_type,
            attack_style: Option::None,
            attack_speed: Option::None,
        }
    }

    /// The lowest contributing item id, used to represent the group.
    pub fn group_identifier(&self) -> (r: Option<GameInt>)
        ensures
            r.is_none() <==> self.item_ids@.len() == 0,
            match r {
                Option::Some(m) => self.item_ids@.contains(m) && forall|i: int|
                    0 <= i < self.item_ids@.len() ==> m <= #[trigger] self.item_ids@[i],
                Option::None => true,
            },
    {
        let mut best: Option<GameInt> = Option::None;
        let mut i: usize = 0;
        while i < self.item_ids.len()
            invariant
                0 <= i <= self.item_ids@.len(),
                best.is_none() <==> i == 0,
                match best {
                    Option::Some(m) => self.item_ids@.take(i as int).contains(m) && forall|j: int|
                        0 <= j < i ==> m <= #[trigger] self.item_ids@[j],
                    Option::None => true,
                },
            decreases self.item_ids@.len() - i,
        {
            let id = self.item_ids[i];
            best = match best {
                Option::None => Some(id),
                Option::Some(other_id) => if id < other_id {
                    Some(id)
                } else {
                    Some(other_id)
                },
            };
            proof {
                let m = best->Some_0;
                assert(self.item_ids@.take(i + 1)[if m == id { i as int } else {
                    choose|k: int| 0 <= k < i && self.item_ids@.take(i as int)[k] == m
                }] == m);
            }
            i = i + 1;
        }
        proof {
            assert(self.item_ids@.take(i as int) =~= self.item_ids@);
        }
        best
    }
}

/// The decomposition of one catalog item for one damage type and style:
/// weapons qualify only when their stance table has a matching entry (and
/// keep their style and cadence); other items always qualify, with the style
/// stripped; only melee damage types produce a variant.
#[verifier::opaque]
pub open spec fn spec_decompose_one(item: Item, attack_type: AttackType, attack_style: AttackStyle)
    -> Option<DecomposedItem> {
    let invalid_weapon = match item.weapon {
        Option::Some(w) => !spec_has_type_and_style(w.stances@, attack_type, attack_style),
        Option::None => false,
    };
    let offense = match attack_type {
        AttackType::Stab => Some(item.equipment.attack_stab),
        AttackType::Slash => Some(item.equipment.attack_slash),
        AttackType::Crush => Some(item.equipment.attack_crush),
        _ => Option::None,
    };
    if invalid_weapon {
        Option::None
    } else {
        match offense {
            Option::None => Option::None,
            Option::Some(av) => Some(DecomposedItem {
                id: item.id,
                attack_value: av,
                strength_value: item.equipment.melee_strength,
                attack_type: attack_type,
                attack_style: if item.equipment.slot == Slot::Weapon {
                    Some(attack_style)
                } else {
                    Option::None
                },
                attack_speed: match item.weapon {
                    Option::Some(w) => Some(w.attack_speed),
                    Option::None => Option::None,
                },
            }),
        }
    }
}

/// Decompose an item for one damage type and style.
pub fn decompose_item_by_type_and_style(
    item: &Item,
    attack_type: AttackType,
    attack_style: AttackStyle,
) -> (r: Option<DecomposedItem>)
    ensures
        r == spec_decompose_one(*item, attack_type, attack_style),
{
    proof {
        reveal(spec_decompose_one);
    }
    let (attack_speed, valid) = match &item.weapon {
        Option::Some(weapon) => (
            Some(weapon.attack_speed),
            Some(has_type_and_style(&weapon.stances, attack_type, attack_style)),
        ),
        Option::None => (Option::None, Option::None),
    };
    if attack_speed.is_some() {
        if let Option::Some(false) = valid {
            return Option::None;
        }
    }
    let attack_value = match attack_type {
        AttackType::Stab => item.equipment.attack_stab,
        AttackType::Slash => item.equipment.attack_slash,
        AttackType::Crush => item.equipment.attack_crush,
        _ => {
            return Option::None;
        },
    };
    Some(DecomposedItem {
        id: item.id,
        attack_value: attack_value,
        strength_value: item.equipment.melee_strength,
        attack_type: attack_type,
        attack_style: match item.equipment.slot {
            Slot::Weapon => Some(attack_style),
            _ => Option::None,
        },
        attack_speed: attack_speed,
    })
}

/// A variant survives filtering when both bonuses are non-negative and its
/// style, if present, is one of the three melee training styles.
pub open spec fn variant_ok(v: DecomposedItem) -> bool {
    &&& v.attack_value >= 0
    &&& v.strength_value >= 0
    &&& match v.attack_style {
        Option::None => true,
        Option::Some(s) => s == AttackStyle::Accurate || s == AttackStyle::Aggressive
            || s == AttackStyle::Defensive,
    }
}

/// The contribution of one optional variant to a variant sequence.
pub open spec fn opt_variant_seq(o: Option<DecomposedItem>) -> Seq<DecomposedItem> {
    match o {
        Option::None => Seq::empty(),
        Option::Some(v) => seq![v],
    }
}

/// The nine melee (damage type, style) pairs an item is decomposed against,
/// in their fixed order: the three damage types under each training style.
pub open spec fn decompose_pair_at(k: int) -> (AttackType, AttackStyle) {
    if k == 0 {
        (AttackType::Stab, AttackStyle::Accurate)
    } else if k == 1 {
        (AttackType::Slash, AttackStyle::Accurate)
    } else if k == 2 {
        (AttackType::Crush, AttackStyle::Accurate)
    } else if k == 3 {
        (AttackType::Stab, AttackStyle::Aggressive)
    } else if k == 4 {
        (AttackType::Slash, AttackStyle::Aggressive)
    } else if k == 5 {
        (AttackType::Crush, AttackStyle::Aggressive)
    } else if k == 6 {
        (AttackType::Stab, AttackStyle::Defensive)
    } else if k == 7 {
        (AttackType::Slash, AttackStyle::Defensive)
    } else {
        (AttackType::Crush, AttackStyle::Defensive)
    }
}

/// The variants produced by the first `k` decomposition pairs.
pub open spec fn spec_decompose_prefix(item: Item, k: int) -> Seq<DecomposedItem>
    decreases k,
{
    if k <= 0 {
        Seq::empty()
    } else {
        spec_decompose_prefix(item, k - 1) + opt_variant_seq(
            spec_decompose_one(item, decompose_pair_at(k - 1).0, decompose_pair_at(k - 1).1),
        )
    }
}

/// All nine melee decompositions of one item, in their fixed order.
pub open spec fn spec_decompose_item(item: Item) -> Seq<DecomposedItem> {
    spec_decompose_prefix(item, 9)
}

fn exec_decompose_pair_at(k: usize) -> (r: (AttackType, AttackStyle))
    requires
        k < 9,
    ensures
        r == decompose_pair_at(k as int),
{
    match k {
        0 => (AttackType::Stab, AttackStyle::Accurate),
        1 => (AttackType::Slash, AttackStyle::Accurate),
        2 => (AttackType::Crush, AttackStyle::Accurate),
        3 => (AttackType::Stab, AttackStyle::Aggressive),
        4 => (AttackType::Slash, AttackStyle::Aggressive),
        5 => (AttackType::Crush, AttackStyle::Aggressive),
        6 => (AttackType::Stab, AttackStyle::Defensive),
        7 => (AttackType::Slash, AttackStyle::Defensive),
        _ => (AttackType::Crush, AttackStyle::Defensive),
    }
}

/// Decompose an item into all its melee variants.
pub fn decompose_item(item: &Item) -> (r: Vec<DecomposedItem>)
    ensures
        r@ == spec_decompose_item(*item),
{
    let mut r: Vec<DecomposedItem> = Vec::new();
    let mut k: usize = 0;
    while k < 9
        invariant
            0 <= k <= 9,
            r@ == spec_decompose_prefix(*item, k as int),
        decreases 9 - k,
    {
        let (t, s) = exec_decompose_pair_at(k);
        if let Option::Some(v) = decompose_item_by_type_and_style(item, t, s) {
            r.push(v);
        }
        proof {
            assert(r@ =~= spec_decompose_prefix(*item, k + 1));
        }
        k = k + 1;
    }
    r
}

/// Keys compare on everything but the contributing item id.
pub open spec fn key_eq(a: DecomposedItem, b: DecomposedItem) -> bool {
    &&& a.attack_value == b.attack_value
    &&& a.strength_value == b.strength_value
    &&& a.attack_type == b.attack_type
    &&& a.attack_style == b.attack_style
    &&& a.attack_speed == b.attack_speed
}

/// An absent cadence orders before any present one.
pub open spec fn opt_speed_lt(a: Option<GameInt>, b: Option<GameInt>) -> bool {
    match a {
        Option::None => b.is_some(),
        Option::Some(x) => match b {
            Option::None => false,
            Option::Some(y) => x < y,
        },
    }
}

/// Strict lexicographic order on variant keys: offense bonus, then strength
/// bonus, then damage type, then style, then cadence.
pub open spec fn key_lt(a: DecomposedItem, b: DecomposedItem) -> bool {
    ||| a.attack_value < b.attack_value
    ||| (a.attack_value == b.attack_value && a.strength_value < b.strength_value)
    ||| (a.attack_value == b.attack_value && a.strength_value == b.strength_value
        && type_rank(a.attack_type) < type_rank(b.attack_type))
    ||| (a.attack_value == b.attack_value && a.strength_value == b.strength_value
        && a.attack_type == b.attack_type
        && opt_style_rank(a.attack_style) < opt_style_rank(b.attack_style))
    ||| (a.attack_value == b.attack_value && a.strength_value == b.strength_value
        && a.attack_type == b.attack_type && a.attack_style == b.attack_style
        && opt_speed_lt(a.attack_speed, b.attack_speed))
}

pub open spec fn key_le(a: DecomposedItem, b: DecomposedItem) -> bool {
    key_lt(a, b) || key_eq(a, b)
}

/// The key order is total: any two keys are comparable.
pub proof fn lemma_key_connex(a: DecomposedItem, b: DecomposedItem)
    ensures
        key_le(a, b) || key_le(b, a),
        !(key_lt(a, b) && key_lt(b, a)),
        !(key_lt(a, b) && key_eq(a, b)),
{
}

/// The key order is transitive.
pub proof fn lemma_key_trans(a: DecomposedItem, b: DecomposedItem, c: DecomposedItem)
    ensures
        key_lt(a, b) && key_lt(b, c) ==> key_lt(a, c),
        key_le(a, b) && key_le(b, c) ==> key_le(a, c),
        key_lt(a, b) && key_eq(b, c) ==> key_lt(a, c),
        key_eq(a, b) && key_lt(b, c) ==> key_lt(a, c),
{
}

fn exec_key_eq(a: &DecomposedItem, b: &DecomposedItem) -> (r: bool)
    ensures
        r == key_eq(*a, *b),
{
    let speed_eq = match a.attack_speed {
        Option::None => b.attack_speed.is_none(),
        Option::Some(x) => match b.attack_speed {
            Option::None => false,
            Option::Some(y) => x == y,
        },
    };
    a.attack_value == b.attack_value && a.strength_value == b.strength_value
        && a.attack_type == b.attack_type && exec_opt_style_rank(a.attack_style)
        == exec_opt_style_rank(b.attack_style) && speed_eq
}

fn exec_key_lt(a: &DecomposedItem, b: &DecomposedItem) -> (r: bool)
    ensures
        r == key_lt(*a, *b),
{
    if a.attack_value != b.attack_value {
        return a.attack_value < b.attack_value;
    }
    if a.strength_value != b.strength_value {
        return a.strength_value < b.strength_value;
    }
    let ta = exec_type_rank(a.attack_type);
    let tb = exec_type_rank(b.attack_type);
    if ta != tb {
        return ta < tb;
    }
    let sa = exec_opt_style_rank(a.attack_style);
    let sb = exec_opt_style_rank(b.attack_style);
    if sa != sb {
        return sa < sb;
    }
    match a.attack_speed {
        Option::None => b.attack_speed.is_some(),
        Option::Some(x) => match b.attack_speed {
            Option::None => false,
            Option::Some(y) => x < y,
        },
    }
}

/// The multiset of item ids contributed by variants of `vs` whose key equals
/// `k`'s key.
pub open spec fn ids_with_key(vs: Seq<DecomposedItem>, k: DecomposedItem) -> Multiset<GameInt>
    decreases vs.len(),
{
    if vs.len() == 0 {
        Multiset::empty()
    } else {
        ids_with_key(vs.drop_last(), k).add(
            if key_eq(vs.last(), k) {
                Multiset::singleton(vs.last().id)
            } else {
                Multiset::empty()
            },
        )
    }
}

pub proof fn lemma_ids_with_key_push(vs: Seq<DecomposedItem>, v: DecomposedItem, k: DecomposedItem)
    ensures
        ids_with_key(vs.push(v), k) == ids_with_key(vs, k).add(
            if key_eq(v, k) {
                Multiset::singleton(v.id)
            } else {
                Multiset::empty()
            },
        ),
{
    assert(vs.push(v).drop_last() =~= vs);
    assert(vs.push(v).last() == v);
}

pub proof fn lemma_ids_with_key_remove(vs: Seq<DecomposedItem>, i: int, k: DecomposedItem)
    requires
        0 <= i < vs.len(),
    ensures
        ids_with_key(vs, k) == ids_with_key(vs.remove(i), k).add(
            if key_eq(vs[i], k) {
                Multiset::singleton(vs[i].id)
            } else {
                Multiset::empty()
            },
        ),
    decreases vs.len(),
{
    if i == vs.len() - 1 {
        assert(vs.remove(i) =~= vs.drop_last());
    } else {
        assert(vs.remove(i).drop_last() =~= vs.drop_last().remove(i));
        assert(vs.remove(i).last() == vs.last());
        lemma_ids_with_key_remove(vs.drop_last(), i, k);
        assert(ids_with_key(vs, k) == ids_with_key(vs.drop_last(), k).add(
            if key_eq(vs.last(), k) {
                Multiset::singleton(vs.last().id)
            } else {
                Multiset::empty()
            },
        ));
        assert(ids_with_key(vs.remove(i), k) =~= ids_with_key(vs.drop_last().remove(i), k).add(
            if key_eq(vs.last(), k) {
                Multiset::singleton(vs.last().id)
            } else {
                Multiset::empty()
            },
        ));
        assert(ids_with_key(vs, k) =~= ids_with_key(vs.remove(i), k).add(
            if key_eq(vs[i], k) {
                Multiset::singleton(vs[i].id)
            } else {
                Multiset::empty()
            },
        ));
    }
}

/// Two variant sequences that are permutations of each other contribute the
/// same ids to every key.
pub proof fn lemma_ids_with_key_perm(a: Seq<DecomposedItem>, b: Seq<DecomposedItem>,
    k: DecomposedItem)
    requires
        a.to_multiset() == b.to_multiset(),
    ensures
        ids_with_key(a, k) == ids_with_key(b, k),
    decreases a.len(),
{
    broadcast use vstd::seq_lib::group_to_multiset_ensures;

    a.to_multiset_ensures();
    b.to_multiset_ensures();
    if a.len() == 0 {
        assert(b.to_multiset().len() == 0);
        assert(b.len() == 0);
    } else {
        let x = a.last();
        assert(a =~= a.drop_last().push(x));
        assert(a.to_multiset().count(x) > 0);
        assert(b.to_multiset().count(x) > 0);
        assert(b.contains(x));
        let i = choose|i: int| 0 <= i < b.len() && b[i] == x;
        assert(a.drop_last().to_multiset() =~= a.to_multiset().remove(x)) by {
            a.drop_last().to_multiset_ensures();
            assert(a.drop_last().push(x).to_multiset() =~= a.drop_last().to_multiset().insert(x));
        }
        assert(b.remove(i).to_multiset() =~= b.to_multiset().remove(x));
        lemma_ids_with_key_perm(a.drop_last(), b.remove(i), k);
        lemma_ids_with_key_remove(b, i, k);
        assert(ids_with_key(a, k) == ids_with_key(a.drop_last(), k).add(
            if key_eq(x, k) {
                Multiset::singleton(x.id)
            } else {
                Multiset::empty()
            },
        ));
    }
}

/// No variant carries the key: the key's id multiset is empty.
pub proof fn lemma_ids_with_key_none(vs: Seq<DecomposedItem>, k: DecomposedItem)
    requires
        forall|i: int| 0 <= i < vs.len() ==> !key_eq(#[trigger] vs[i], k),
    ensures
        ids_with_key(vs, k) == Multiset::<GameInt>::empty(),
    decreases vs.len(),
{
    if vs.len() > 0 {
        lemma_ids_with_key_none(vs.drop_last(), k);
        assert(ids_with_key(vs, k) =~= Multiset::<GameInt>::empty());
    }
}

/// A nonempty id multiset for a key means some variant carries that key.
pub proof fn lemma_ids_with_key_mem(vs: Seq<DecomposedItem>, k: DecomposedItem)
    requires
        ids_with_key(vs, k) != Multiset::<GameInt>::empty(),
    ensures
        exists|i: int| 0 <= i < vs.len() && key_eq(#[trigger] vs[i], k),
{
    if forall|i: int| 0 <= i < vs.len() ==> !key_eq(#[trigger] vs[i], k) {
        lemma_ids_with_key_none(vs, k);
    }
}

/// A variant sequence sorted by key.
pub open spec fn variants_sorted(s: Seq<DecomposedItem>) -> bool {
    forall|i: int, j: int| 0 <= i < j < s.len() ==> key_le(#[trigger] s[i], #[trigger] s[j])
}

/// Sort variants by key, preserving the collection of variants.
fn sort_variants(input: &Vec<DecomposedItem>) -> (r: Vec<DecomposedItem>)
    ensures
        variants_sorted(r@),
        r@.to_multiset() == input@.to_multiset(),
{
    broadcast use vstd::seq_lib::group_to_multiset_ensures;

    let mut r: Vec<DecomposedItem> = Vec::new();
    let mut i: usize = 0;
    proof {
        assert(input@.take(0) =~= Seq::<DecomposedItem>::empty());
        assert(Seq::<DecomposedItem>::empty().to_multiset() =~= Multiset::<DecomposedItem>::empty());
        assert(r@.to_multiset() =~= Multiset::<DecomposedItem>::empty());
    }
    while i < input.len()
        invariant
            0 <= i <= input@.len(),
            variants_sorted(r@),
            r@.to_multiset() == input@.take(i as int).to_multiset(),
        decreases input@.len() - i,
    {
        let x = input[i];
        let ghost old_r = r@;
        let mut pos: usize = 0;
        while pos < r.len() && !exec_key_lt(&x, &r[pos])
            invariant
                0 <= pos <= r@.len(),
                r@ == old_r,
                variants_sorted(r@),
                forall|j: int| 0 <= j < pos ==> key_le(#[trigger] r@[j], x),
            decreases r@.len() - pos,
        {
            proof {
                lemma_key_connex(x, r@[pos as int]);
            }
            pos = pos + 1;
        }
        r.insert(pos, x);
        proof {
            vstd::seq_lib::to_multiset_insert(old_r, pos as int, x);
            let s = r@;
            assert forall|p: int, q: int| 0 <= p < q < s.len() implies key_le(s[p], s[q]) by {
                if q < pos {
                } else if p < pos && q == pos {
                } else if p < pos && q > pos {
                    assert(s[q] == old_r[q - 1]);
                } else if p == pos {
                    assert(key_lt(x, old_r[pos as int]));
                    assert(s[q] == old_r[q - 1]);
                    if q - 1 > pos {
                        lemma_key_trans(x, old_r[pos as int], old_r[q - 1]);
                        lemma_key_connex(old_r[pos as int], old_r[q - 1]);
                        assert(key_le(old_r[pos as int], old_r[q - 1]));
                        if key_eq(old_r[pos as int], old_r[q - 1]) {
                            lemma_key_trans(x, old_r[pos as int], old_r[q - 1]);
                        }
                    }
                } else {
                    assert(s[p] == old_r[p - 1] && s[q] == old_r[q - 1]);
                }
            }
            assert(input@.take(i + 1) =~= input@.take(i as int).push(x));
            vstd::seq_lib::to_multiset_build(input@.take(i as int), x);
            assert(input@.take(i + 1).to_multiset() == input@.take(i as int).to_multiset().insert(
                x,
            ));
        }
        i = i + 1;
    }
    proof {
        assert(input@.take(input@.len() as int) =~= input@);
    }
    r
}

/// The key of a group, as a variant with a placeholder id.
pub open spec fn gkey(g: ItemGroup) -> DecomposedItem {
    DecomposedItem {
        id: 0,
        attack_value: g.attack_value,
        strength_value: g.strength_value,
        attack_type: g.attack_type,
        attack_style: g.attack_style,
        attack_speed: g.attack_speed,
    }
}

/// Some group in `gs` carries the key of variant `v`.
pub open spec fn has_group_for(gs: Seq<ItemGroup>, v: DecomposedItem) -> bool {
    exists|a: int| 0 <= a < gs.len() && key_eq(gkey(#[trigger] gs[a]), v)
}

/// `gs` is the grouping of the variant collection `vs`: groups are strictly
/// ordered by key, each group collects exactly the ids of the variants
/// carrying its key, and every variant's key is represented.
pub open spec fn is_grouping(gs: Seq<ItemGroup>, vs: Seq<DecomposedItem>) -> bool {
    &&& forall|a: int, b: int| 0 <= a < b < gs.len() ==> key_lt(gkey(#[trigger] gs[a]), gkey(#[trigger] gs[b]))
    &&& forall|a: int| 0 <= a < gs.len() ==> ((#[trigger] gs[a]).item_ids@.len() > 0
        && gs[a].item_ids@.to_multiset() == ids_with_key(vs, gkey(gs[a])))
    &&& forall|i: int| 0 <= i < vs.len() ==> has_group_for(gs, #[trigger] vs[i])
}

/// Instantiate the per-group clause of `is_grouping` at one index.
pub proof fn lemma_grouping_at(gs: Seq<ItemGroup>, vs: Seq<DecomposedItem>, a: int)
    requires
        is_grouping(gs, vs),
        0 <= a < gs.len(),
    ensures
        gs[a].item_ids@.len() > 0,
        gs[a].item_ids@.to_multiset() == ids_with_key(vs, gkey(gs[a])),
{
    assert(gs[a].item_ids@.len() > 0 && gs[a].item_ids@.to_multiset() == ids_with_key(
        vs,
        gkey(gs[a]),
    ));
}

fn exec_group_key_eq(g: &ItemGroup, v: &DecomposedItem) -> (r: bool)
    ensures
        r == key_eq(gkey(*g), *v),
{
    let k = DecomposedItem {
        id: 0,
        attack_value: g.attack_value,
        strength_value: g.strength_value,
        attack_type: g.attack_type,
        attack_style: g.attack_style,
        attack_speed: g.attack_speed,
    };
    exec_key_eq(&k, v)
}

/// Merge a sorted variant sequence into groups of key-equal runs.
fn group_variants(sorted: &Vec<DecomposedItem>) -> (r: Vec<ItemGroup>)
    requires
        variants_sorted(sorted@),
    ensures
        is_grouping(r@, sorted@),
{
    broadcast use vstd::seq_lib::group_to_multiset_ensures;
    broadcast use vstd::multiset::group_multiset_axioms;

    let mut r: Vec<ItemGroup> = Vec::new();
    let mut j: usize = 0;
    proof {
        assert(sorted@.take(0) =~= Seq::<DecomposedItem>::empty());
    }
    while j < sorted.len()
        invariant
            0 <= j <= sorted@.len(),
            variants_sorted(sorted@),
            is_grouping(r@, sorted@.take(j as int)),
            j > 0 ==> r@.len() > 0 && key_eq(gkey(r@.last()), sorted@[j - 1]),
            j == 0 ==> r@.len() == 0,
        decreases sorted@.len() - j,
    {
        let v = sorted[j];
        let ghost prefix = sorted@.take(j as int);
        let ghost prefix1 = sorted@.take(j + 1);
        proof {
            assert(prefix1 =~= prefix.push(v));
        }
        let same = if r.len() > 0 {
            let last_ref = &r[r.len() - 1];
            exec_group_key_eq(last_ref, &v)
        } else {
            false
        };
        if same {
            let ghost old_gs = r@;
            let mut g = r.pop().unwrap();
            let ghost old_g = g;
            g.item_ids.push(v.id);
            proof {
                assert(g.item_ids@ == old_g.item_ids@.push(v.id));
                vstd::seq_lib::to_multiset_build(old_g.item_ids@, v.id);
                assert(g.item_ids@.to_multiset() =~= old_g.item_ids@.to_multiset().insert(v.id));
            }
            r.push(g);
            proof {
                let gs = r@;
                let n = gs.len();
                assert forall|a: int, b: int| 0 <= a < b < n implies key_lt(gkey(gs[a]), gkey(gs[b])) by {
                }
                assert forall|a: int| 0 <= a < n implies (gs[a].item_ids@.len() > 0
                    && gs[a].item_ids@.to_multiset() == ids_with_key(prefix1, gkey(gs[a]))) by {
                    lemma_ids_with_key_push(prefix, v, gkey(gs[a]));
                    if a < n - 1 {
                        assert(gs[a] == old_gs[a]);
                        assert(old_gs[a].item_ids@.len() > 0);
                        assert(old_gs[a].item_ids@.to_multiset() == ids_with_key(
                            prefix,
                            gkey(old_gs[a]),
                        ));
                        assert(key_lt(gkey(old_gs[a]), gkey(old_gs[n - 1])));
                        assert(old_gs[n - 1] == old_g);
                        lemma_key_connex(gkey(gs[a]), gkey(old_g));
                        if key_eq(v, gkey(gs[a])) {
                            lemma_key_trans(gkey(gs[a]), gkey(old_g), v);
                            lemma_key_connex(gkey(gs[a]), v);
                            lemma_key_trans(gkey(old_g), v, gkey(gs[a]));
                            lemma_key_connex(gkey(old_g), gkey(gs[a]));
                            assert(false);
                        }
                        assert(gs[a].item_ids@.to_multiset() =~= ids_with_key(prefix1, gkey(gs[a])));
                    } else {
                        assert(old_gs[n - 1] == old_g);
                        assert(old_g.item_ids@.len() > 0);
                        assert(old_g.item_ids@.to_multiset() == ids_with_key(prefix, gkey(old_g)));
                        assert(key_eq(gkey(old_g), v));
                        assert(gkey(g) == gkey(old_g));
                        assert(key_eq(v, gkey(g)));
                        assert(gs[a] == g);
                        assert(gs[a].item_ids@.to_multiset() =~= ids_with_key(prefix, gkey(g)).insert(v.id));
                        assert(gs[a].item_ids@.to_multiset() =~= ids_with_key(prefix1, gkey(gs[a])));
                    }
                }
                assert forall|i: int| 0 <= i < prefix1.len() implies has_group_for(
                    r@,
                    #[trigger] prefix1[i],
                ) by {
                    if i < prefix.len() {
                        assert(has_group_for(old_gs, prefix[i]));
                        let a = choose|a: int|
                            0 <= a < old_gs.len() && key_eq(gkey(#[trigger] old_gs[a]), prefix[i]);
                        assert(gkey(r@[a]) == gkey(old_gs[a]));
                        assert(key_eq(gkey(r@[a]), prefix1[i]));
                    } else {
                        assert(key_eq(gkey(r@[n - 1]), prefix1[i]));
                    }
                }
            }
        } else {
            let mut ids: Vec<GameInt> = Vec::new();
            ids.push(v.id);
            let g = ItemGroup {
                item_ids: ids,
                attack_value: v.attack_value,
                strength_value: v.strength_value,
                attack_type: v.attack_type,
                attack_style: v.attack_style,
                attack_speed: v.attack_speed,
            };
            let ghost old_gs = r@;
            r.push(g);
            proof {
                let gs = r@;
                let n = gs.len();
                assert(key_eq(gkey(g), v));
                assert forall|i: int| 0 <= i < prefix.len() implies !key_eq(prefix[i], gkey(g)) by {
                    assert(key_le(prefix[i], sorted@[j as int]));
                    if j > 0 {
                        let lastg = old_gs[old_gs.len() - 1];
                        assert(key_eq(gkey(lastg), sorted@[j - 1]));
                        assert(!key_eq(gkey(lastg), v));
                        if key_eq(prefix[i], gkey(g)) {
                            assert(key_eq(prefix[i], v));
                            assert(key_le(sorted@[i], sorted@[j - 1]));
                            lemma_key_connex(sorted@[j - 1], v);
                            lemma_key_trans(v, sorted@[i], sorted@[j - 1]);
                            lemma_key_connex(sorted@[i], v);
                            if key_lt(sorted@[i], v) {
                                assert(false);
                            }
                            assert(key_eq(sorted@[i], v) || key_lt(v, sorted@[i]));
                            if key_lt(v, sorted@[i]) {
                                lemma_key_trans(v, sorted@[i], sorted@[j - 1]);
                                lemma_key_connex(v, sorted@[j - 1]);
                                assert(key_lt(v, sorted@[j - 1]) || key_eq(v, sorted@[j - 1]));
                                assert(key_le(sorted@[j - 1], sorted@[j as int]));
                                lemma_key_connex(v, sorted@[j - 1]);
                                lemma_key_trans(sorted@[j - 1], v, sorted@[i]);
                                assert(false);
                            }
                            assert(key_eq(sorted@[i], v));
                            lemma_key_trans(gkey(lastg), sorted@[j - 1], v);
                            assert(false);
                        }
                    } else {
                        assert(prefix.len() == 0);
                    }
                }
                lemma_ids_with_key_none(prefix, gkey(g));
                assert forall|a: int, b: int| 0 <= a < b < n implies key_lt(gkey(gs[a]), gkey(gs[b])) by {
                    if b == n - 1 && j > 0 {
                        let lastg = old_gs[old_gs.len() - 1];
                        assert(key_eq(gkey(lastg), sorted@[j - 1]));
                        assert(key_le(sorted@[j - 1], v));
                        assert(!key_eq(gkey(lastg), v));
                        lemma_key_trans(gkey(lastg), sorted@[j - 1], v);
                        assert(key_lt(sorted@[j - 1], v) || key_eq(sorted@[j - 1], v));
                        if key_eq(sorted@[j - 1], v) {
                            lemma_key_trans(gkey(lastg), sorted@[j - 1], v);
                            assert(key_eq(gkey(lastg), v)) by {
                                lemma_key_connex(gkey(lastg), v);
                                lemma_key_trans(v, sorted@[j - 1], gkey(lastg));
                            }
                            assert(false);
                        }
                        assert(key_lt(gkey(lastg), v));
                        if a < n - 1 - 1 {
                            assert(key_lt(gkey(gs[a]), gkey(lastg)));
                            lemma_key_trans(gkey(gs[a]), gkey(lastg), v);
                        }
                        assert(key_lt(gkey(gs[a]), gkey(gs[b])));
                    }
                }
                assert forall|a: int| 0 <= a < n implies (gs[a].item_ids@.len() > 0
                    && gs[a].item_ids@.to_multiset() == ids_with_key(prefix1, gkey(gs[a]))) by {
                    lemma_ids_with_key_push(prefix, v, gkey(gs[a]));
                    if a < n - 1 {
                        assert(gs[a] == old_gs[a]);
                        assert(old_gs[a].item_ids@.len() > 0);
                        assert(old_gs[a].item_ids@.to_multiset() == ids_with_key(
                            prefix,
                            gkey(old_gs[a]),
                        ));
                        assert(key_lt(gkey(gs[a]), gkey(gs[n - 1])));
                        assert(gs[n - 1] == g);
                        if key_eq(v, gkey(gs[a])) {
                            lemma_key_trans(gkey(gs[a]), gkey(g), v);
                            lemma_key_connex(gkey(gs[a]), gkey(g));
                            lemma_key_trans(gkey(gs[a]), v, gkey(g));
                            assert(false);
                        }
                        assert(gs[a].item_ids@.to_multiset() =~= ids_with_key(prefix1, gkey(gs[a])));
                    } else {
                        assert(key_eq(v, gkey(g)));
                        assert(gs[a].item_ids@ =~= seq![v.id]);
                        assert(seq![v.id].to_multiset() =~= Multiset::<GameInt>::empty().insert(v.id)) by {
                            assert(seq![v.id] =~= Seq::<GameInt>::empty().push(v.id));
                            vstd::seq_lib::to_multiset_build(Seq::<GameInt>::empty(), v.id);
                            vstd::seq_lib::to_multiset_len(Seq::<GameInt>::empty());
                            vstd::multiset::lemma_multiset_empty_len(
                                Seq::<GameInt>::empty().to_multiset(),
                            );
                        }
                        assert(gs[a].item_ids@.to_multiset() =~= ids_with_key(prefix1, gkey(gs[a])));
                    }
                }
                assert forall|i: int| 0 <= i < prefix1.len() implies has_group_for(
                    r@,
                    #[trigger] prefix1[i],
                ) by {
                    if i < prefix.len() {
                        assert(has_group_for(old_gs, prefix[i]));
                        let a = choose|a: int|
                            0 <= a < old_gs.len() && key_eq(gkey(#[trigger] old_gs[a]), prefix[i]);
                        assert(r@[a] == old_gs[a]);
                        assert(key_eq(gkey(r@[a]), prefix1[i]));
                    } else {
                        assert(key_eq(gkey(r@[n - 1]), prefix1[i]));
                    }
                }
            }
        }
        j = j + 1;
    }
    proof {
        assert(sorted@.take(sorted@.len() as int) =~= sorted@);
    }
    r
}

pub(crate) fn exec_variant_ok(v: &DecomposedItem) -> (r: bool)
    ensures
        r == variant_ok(*v),
{
    let style_ok = match v.attack_style {
        Option::None => true,
        Option::Some(s) => match s {
            AttackStyle::Accurate | AttackStyle::Aggressive | AttackStyle::Defensive => true,
            _ => false,
        },
    };
    v.attack_value >= 0 && v.strength_value >= 0 && style_ok
}

/// The surviving variants of a decomposition, in order.
pub open spec fn filter_ok(s: Seq<DecomposedItem>) -> Seq<DecomposedItem>
    decreases s.len(),
{
    if s.len() == 0 {
        Seq::empty()
    } else {
        filter_ok(s.drop_last()) + (if variant_ok(s.last()) {
            seq![s.last()]
        } else {
            Seq::empty()
        })
    }
}

/// All surviving variants of a whole item sequence, in catalog order.
pub open spec fn spec_variants(items: Seq<Item>) -> Seq<DecomposedItem>
    decreases items.len(),
{
    if items.len() == 0 {
        Seq::empty()
    } else {
        spec_variants(items.drop_last()) + filter_ok(spec_decompose_item(items.last()))
    }
}

/// Every surviving variant satisfies the filter.
pub proof fn lemma_filter_ok_all(s: Seq<DecomposedItem>)
    ensures
        forall|i: int| 0 <= i < filter_ok(s).len() ==> variant_ok(#[trigger] filter_ok(s)[i]),
    decreases s.len(),
{
    if s.len() > 0 {
        lemma_filter_ok_all(s.drop_last());
        let f = filter_ok(s);
        let fd = filter_ok(s.drop_last());
        assert forall|i: int| 0 <= i < f.len() implies variant_ok(f[i]) by {
            if i < fd.len() {
                assert(f[i] == fd[i]);
            } else {
                assert(f[i] == s.last());
            }
        }
    }
}

/// Collect the surviving variants of the given items, in order.
fn collect_variants(items: &Vec<Item>) -> (r: Vec<DecomposedItem>)
    ensures
        r@ == spec_variants(items@),
{
    let mut r: Vec<DecomposedItem> = Vec::new();
    let mut i: usize = 0;
    while i < items.len()
        invariant
            0 <= i <= items@.len(),
            r@ == spec_variants(items@.take(i as int)),
        decreases items@.len() - i,
    {
        let dv = decompose_item(&items[i]);
        let ghost base = r@;
        let ghost dvs = dv@;
        let mut jj: usize = 0;
        while jj < dv.len()
            invariant
                0 <= jj <= dvs.len(),
                dv@ == dvs,
                r@ == base + filter_ok(dvs.take(jj as int)),
            decreases dvs.len() - jj,
        {
            let keep = exec_variant_ok(&dv[jj]);
            proof {
                assert(dvs.take(jj + 1).drop_last() =~= dvs.take(jj as int));
            }
            if keep {
                r.push(dv[jj]);
            }
            proof {
                assert(r@ =~= base + filter_ok(dvs.take(jj + 1)));
            }
            jj = jj + 1;
        }
        proof {
            assert(dvs.take(dvs.len() as int) =~= dvs);
            assert(items@.take(i + 1).drop_last() =~= items@.take(i as int));
            assert(items@.take(i + 1).last() == items@[i as int]);
            assert(r@ =~= spec_variants(items@.take(i + 1)));
        }
        i = i + 1;
    }
    proof {
        assert(items@.take(items@.len() as int) =~= items@);
    }
    r
}

/// Merge an arbitrary collection of surviving variants into equivalence
/// groups, one per distinct key, sorted by key.
pub(crate) fn group_collected(variants: &Vec<DecomposedItem>) -> (r: Vec<ItemGroup>)
    ensures
        is_grouping(r@, variants@),
{
    let sorted = sort_variants(variants);
    let groups = group_variants(&sorted);
    proof {
        broadcast use vstd::seq_lib::group_to_multiset_ensures;
        broadcast use vstd::multiset::group_multiset_axioms;

        sorted@.to_multiset_ensures();
        variants@.to_multiset_ensures();
        let vs = variants@;
        assert(sorted@.to_multiset() == vs.to_multiset());
        assert(is_grouping(groups@, sorted@));
        assert forall|a: int| 0 <= a < groups@.len() implies (#[trigger] groups@[a].item_ids@.len() > 0
            && groups@[a].item_ids@.to_multiset() == ids_with_key(vs, gkey(groups@[a]))) by {
            assert(groups@[a].item_ids@.len() > 0 && groups@[a].item_ids@.to_multiset()
                == ids_with_key(sorted@, gkey(groups@[a])));
            lemma_ids_with_key_perm(sorted@, vs, gkey(groups@[a]));
        }
        assert(forall|a: int, b: int| 0 <= a < b < groups@.len() ==> key_lt(
            gkey(#[trigger] groups@[a]),
            gkey(#[trigger] groups@[b]),
        ));
        assert forall|i: int| 0 <= i < vs.len() implies has_group_for(groups@, #[trigger] vs[i]) by {
            assert(vs.contains(vs[i]));
            assert(vs.to_multiset().count(vs[i]) > 0);
            assert(sorted@.to_multiset().count(vs[i]) > 0);
            assert(sorted@.contains(vs[i]));
            let si = choose|si: int| 0 <= si < sorted@.len() && sorted@[si] == vs[i];
            assert(has_group_for(groups@, sorted@[si]));
        }
        assert(is_grouping(groups@, vs));
    }
    groups
}

/// Decompose the given items into melee variants, discard variants with a
/// negative bonus or a non-melee style, and merge variants with identical
/// combat-relevant keys into equivalence groups, one per distinct key, sorted
/// by key, each collecting exactly the contributing item ids.
pub fn group_similar_items(items: &Vec<Item>) -> (r: Vec<ItemGroup>)
    ensures
        is_grouping(r@, spec_variants(items@)),
{
    let variants = collect_variants(items);
    group_collected(&variants)
}

/// Promote recorded ids back to raw variants, one per id, all carrying the
/// given key.
pub open spec fn ids_to_variants(ids: Seq<GameInt>, key: DecomposedItem) -> Seq<DecomposedItem>
    decreases ids.len(),
{
    if ids.len() == 0 {
        Seq::empty()
    } else {
        ids_to_variants(ids.drop_last(), key) + seq![
            DecomposedItem {
                id: ids.last(),
                attack_value: key.attack_value,
                strength_value: key.strength_value,
                attack_type: key.attack_type,
                attack_style: key.attack_style,
                attack_speed: key.attack_speed,
            },
        ]
    }
}

/// Promote an already-grouped list back to raw variants.
pub open spec fn promote(gs: Seq<ItemGroup>) -> Seq<DecomposedItem>
    decreases gs.len(),
{
    if gs.len() == 0 {
        Seq::empty()
    } else {
        promote(gs.drop_last()) + ids_to_variants(gs.last().item_ids@, gkey(gs.last()))
    }
}

proof fn lemma_ids_with_key_concat(a: Seq<DecomposedItem>, b: Seq<DecomposedItem>,
    k: DecomposedItem)
    ensures
        ids_with_key(a + b, k) == ids_with_key(a, k).add(ids_with_key(b, k)),
    decreases b.len(),
{
    broadcast use vstd::multiset::group_multiset_axioms;

    if b.len() == 0 {
        assert(a + b =~= a);
        assert(ids_with_key(a, k).add(ids_with_key(b, k)) =~= ids_with_key(a, k));
    } else {
        assert((a + b).drop_last() =~= a + b.drop_last());
        assert((a + b).last() == b.last());
        lemma_ids_with_key_concat(a, b.drop_last(), k);
        assert(ids_with_key(a + b, k) =~= ids_with_key(a, k).add(ids_with_key(b, k)));
    }
}

proof fn lemma_ids_to_variants_ids(ids: Seq<GameInt>, key: DecomposedItem, k: DecomposedItem)
    ensures
        ids_with_key(ids_to_variants(ids, key), k) == (if key_eq(key, k) {
            ids.to_multiset()
        } else {
            Multiset::<GameInt>::empty()
        }),
    decreases ids.len(),
{
    broadcast use vstd::seq_lib::group_to_multiset_ensures;
    broadcast use vstd::multiset::group_multiset_axioms;

    if ids.len() == 0 {
        ids.to_multiset_ensures();
        vstd::multiset::lemma_multiset_empty_len(ids.to_multiset());
    } else {
        lemma_ids_to_variants_ids(ids.drop_last(), key, k);
        let tail = seq![
            DecomposedItem {
                id: ids.last(),
                attack_value: key.attack_value,
                strength_value: key.strength_value,
                attack_type: key.attack_type,
                attack_style: key.attack_style,
                attack_speed: key.attack_speed,
            },
        ];
        lemma_ids_with_key_concat(ids_to_variants(ids.drop_last(), key), tail, k);
        assert(tail.drop_last() =~= Seq::<DecomposedItem>::empty());
        assert(ids =~= ids.drop_last().push(ids.last()));
        vstd::seq_lib::to_multiset_build(ids.drop_last(), ids.last());
        assert(tail.len() == 1);
        assert(ids_with_key(Seq::<DecomposedItem>::empty(), k) == Multiset::<GameInt>::empty());
        assert(ids_with_key(tail, k) == ids_with_key(tail.drop_last(), k).add(
            if key_eq(tail.last(), k) {
                Multiset::singleton(tail.last().id)
            } else {
                Multiset::empty()
            },
        ));
        assert(key_eq(tail.last(), k) == key_eq(key, k));
        assert(tail.last().id == ids.last());
        if key_eq(key, k) {
            assert(ids_with_key(tail, k) =~= Multiset::singleton(ids.last()));
            assert(ids_with_key(ids_to_variants(ids, key), k) =~= ids.to_multiset());
        } else {
            assert(ids_with_key(tail, k) =~= Multiset::<GameInt>::empty());
            assert(ids_with_key(ids_to_variants(ids, key), k) =~= Multiset::<GameInt>::empty());
        }
    }
}

proof fn lemma_ids_with_key_congruent(vs: Seq<DecomposedItem>, k1: DecomposedItem,
    k2: DecomposedItem)
    requires
        key_eq(k1, k2),
    ensures
        ids_with_key(vs, k1) == ids_with_key(vs, k2),
    decreases vs.len(),
{
    if vs.len() > 0 {
        lemma_ids_with_key_congruent(vs.drop_last(), k1, k2);
        assert(ids_with_key(vs, k1) =~= ids_with_key(vs, k2));
    }
}

proof fn lemma_promote_none(gs: Seq<ItemGroup>, k: DecomposedItem)
    requires
        forall|a: int| 0 <= a < gs.len() ==> !key_eq(gkey(#[trigger] gs[a]), k),
    ensures
        ids_with_key(promote(gs), k) == Multiset::<GameInt>::empty(),
    decreases gs.len(),
{
    broadcast use vstd::multiset::group_multiset_axioms;

    if gs.len() == 0 {
    } else {
        assert(forall|a: int|
            0 <= a < gs.drop_last().len() ==> !key_eq(gkey(#[trigger] gs.drop_last()[a]), k));
        lemma_promote_none(gs.drop_last(), k);
        lemma_ids_with_key_concat(
            promote(gs.drop_last()),
            ids_to_variants(gs.last().item_ids@, gkey(gs.last())),
            k,
        );
        lemma_ids_to_variants_ids(gs.last().item_ids@, gkey(gs.last()), k);
        assert(!key_eq(gkey(gs.last()), k));
        assert(ids_with_key(promote(gs), k) =~= Multiset::<GameInt>::empty());
    }
}

proof fn lemma_promote_at(gs: Seq<ItemGroup>, a: int, k: DecomposedItem)
    requires
        forall|x: int, y: int| 0 <= x < y < gs.len() ==> key_lt(gkey(#[trigger] gs[x]), gkey(#[trigger] gs[y])),
        0 <= a < gs.len(),
        key_eq(gkey(gs[a]), k),
    ensures
        ids_with_key(promote(gs), k) == gs[a].item_ids@.to_multiset(),
    decreases gs.len(),
{
    broadcast use vstd::multiset::group_multiset_axioms;

    lemma_ids_with_key_concat(
        promote(gs.drop_last()),
        ids_to_variants(gs.last().item_ids@, gkey(gs.last())),
        k,
    );
    lemma_ids_to_variants_ids(gs.last().item_ids@, gkey(gs.last()), k);
    if a == gs.len() - 1 {
        assert(key_eq(gkey(gs.last()), k));
        assert forall|x: int| 0 <= x < gs.drop_last().len() implies !key_eq(
            gkey(#[trigger] gs.drop_last()[x]),
            k,
        ) by {
            assert(gs.drop_last()[x] == gs[x]);
            assert(key_lt(gkey(gs[x]), gkey(gs[a])));
            lemma_key_connex(gkey(gs[x]), gkey(gs[a]));
            if key_eq(gkey(gs[x]), k) {
                lemma_key_trans(gkey(gs[a]), k, gkey(gs[x]));
                lemma_key_trans(gkey(gs[x]), gkey(gs[a]), k);
                assert(key_eq(gkey(gs[x]), gkey(gs[a]))) by {
                    assert(key_eq(gkey(gs[x]), k) && key_eq(gkey(gs[a]), k));
                }
                assert(false);
            }
        }
        lemma_promote_none(gs.drop_last(), k);
        assert(ids_with_key(promote(gs), k) =~= gs[a].item_ids@.to_multiset());
    } else {
        assert(!key_eq(gkey(gs.last()), k)) by {
            assert(key_lt(gkey(gs[a]), gkey(gs.last())));
            if key_eq(gkey(gs.last()), k) {
                assert(key_eq(gkey(gs[a]), k) && key_eq(gkey(gs.last()), k));
                lemma_key_connex(gkey(gs[a]), gkey(gs.last()));
                assert(false);
            }
        }
        assert(forall|x: int, y: int|
            0 <= x < y < gs.drop_last().len() ==> key_lt(
                gkey(#[trigger] gs.drop_last()[x]),
                gkey(#[trigger] gs.drop_last()[y]),
            ));
        assert(gs.drop_last()[a] == gs[a]);
        lemma_promote_at(gs.drop_last(), a, k);
        assert(ids_with_key(promote(gs), k) =~= gs[a].item_ids@.to_multiset());
    }
}

/// Promotion preserves every equivalence class: the variants an
/// already-grouped list promotes back to contribute exactly the same ids to
/// every key as the variants the grouping was built from.
pub proof fn lemma_promote_classes(gs: Seq<ItemGroup>, vs: Seq<DecomposedItem>, k: DecomposedItem)
    requires
        is_grouping(gs, vs),
    ensures
        ids_with_key(promote(gs), k) == ids_with_key(vs, k),
{
    broadcast use vstd::seq_lib::group_to_multiset_ensures;
    broadcast use vstd::multiset::group_multiset_axioms;

    if exists|a: int| 0 <= a < gs.len() && key_eq(gkey(#[trigger] gs[a]), k) {
        let a = choose|a: int| 0 <= a < gs.len() && key_eq(gkey(#[trigger] gs[a]), k);
        lemma_promote_at(gs, a, k);
        lemma_grouping_at(gs, vs, a);
        lemma_ids_with_key_congruent(vs, gkey(gs[a]), k);
    } else {
        lemma_promote_none(gs, k);
        if ids_with_key(vs, k) != Multiset::<GameInt>::empty() {
            lemma_ids_with_key_mem(vs, k);
            let i = choose|i: int| 0 <= i < vs.len() && key_eq(#[trigger] vs[i], k);
            assert(has_group_for(gs, vs[i]));
            let a = choose|a: int| 0 <= a < gs.len() && key_eq(gkey(#[trigger] gs[a]), vs[i]);
            assert(key_eq(gkey(gs[a]), k));
            assert(false);
        }
    }
}

/// Grouping is idempotent: any grouping of the promoted variants of an
/// already-grouped list is again a grouping of the original variant
/// collection — regrouping yields the same equivalence classes.
pub proof fn lemma_grouping_idempotent(gs: Seq<ItemGroup>, vs: Seq<DecomposedItem>,
    gs2: Seq<ItemGroup>)
    requires
        is_grouping(gs, vs),
        is_grouping(gs2, promote(gs)),
    ensures
        is_grouping(gs2, vs),
{
    broadcast use vstd::seq_lib::group_to_multiset_ensures;
    broadcast use vstd::multiset::group_multiset_axioms;

    assert forall|a: int| 0 <= a < gs2.len() implies ((#[trigger] gs2[a]).item_ids@.len() > 0
        && gs2[a].item_ids@.to_multiset() == ids_with_key(vs, gkey(gs2[a]))) by {
        lemma_grouping_at(gs2, promote(gs), a);
        lemma_promote_classes(gs, vs, gkey(gs2[a]));
    }
    assert forall|i: int| 0 <= i < vs.len() implies has_group_for(gs2, #[trigger] vs[i]) by {
        assert(has_group_for(gs, vs[i]));
        let a = choose|a: int| 0 <= a < gs.len() && key_eq(gkey(#[trigger] gs[a]), vs[i]);
        lemma_grouping_at(gs, vs, a);
        lemma_promote_classes(gs, vs, gkey(gs[a]));
        assert(ids_with_key(promote(gs), gkey(gs[a])) == gs[a].item_ids@.to_multiset());
        assert(ids_with_key(promote(gs), gkey(gs[a])) != Multiset::<GameInt>::empty()) by {
            gs[a].item_ids@.to_multiset_ensures();
            vstd::multiset::lemma_multiset_empty_len(gs[a].item_ids@.to_multiset());
        }
        lemma_ids_with_key_mem(promote(gs), gkey(gs[a]));
        let w = choose|w: int|
            0 <= w < promote(gs).len() && key_eq(#[trigger] promote(gs)[w], gkey(gs[a]));
        assert(has_group_for(gs2, promote(gs)[w]));
        let b = choose|b: int|
            0 <= b < gs2.len() && key_eq(gkey(#[trigger] gs2[b]), promote(gs)[w]);
        assert(key_eq(gkey(gs2[b]), vs[i]));
        assert(has_group_for(gs2, vs[i]));
    }
}

/// The cadence bucket a group falls in: its attack cadence, or the default
/// cadence 1 when it has none.
pub open spec fn eff_speed(g: ItemGroup) -> GameInt {
    match g.attack_speed {
        Option::None => 1,
        Option::Some(s) => s,
    }
}

fn exec_eff_speed(g: &ItemGroup) -> (r: GameInt)
    ensures
        r == eff_speed(*g),
{
    match g.attack_speed {
        Option::None => 1,
        Option::Some(s) => s,
    }
}

/// `a` dominates `b`: at least as good in both offense and strength.
pub open spec fn dominates(a: ItemGroup, b: ItemGroup) -> bool {
    a.attack_value >= b.attack_value && a.strength_value >= b.strength_value
}

/// Some entry of `items` holds the same data as `g`.
pub open spec fn appears_in(g: ItemGroup, items: Seq<ItemGroup>) -> bool {
    exists|j: int| 0 <= j < items.len() && group_matches(g, #[trigger] items[j])
}

/// Some survivor in `r` sits in `g`'s cadence bucket and dominates it.
pub open spec fn covered_by(g: ItemGroup, r: Seq<ItemGroup>) -> bool {
    exists|i: int|
        0 <= i < r.len() && eff_speed(#[trigger] r[i]) == eff_speed(g) && dominates(r[i], g)
}

/// `g` is one of the entries of `s`.
pub open spec fn in_seq(g: ItemGroup, s: Seq<ItemGroup>) -> bool {
    exists|b: int| 0 <= b < s.len() && g == #[trigger] s[b]
}

/// No two survivors in the same cadence bucket dominate one another.
pub open spec fn pruned_antichain(r: Seq<ItemGroup>) -> bool {
    forall|i: int, j: int|
        0 <= i < r.len() && 0 <= j < r.len() && i != j && eff_speed(#[trigger] r[i]) == eff_speed(
            #[trigger] r[j],
        ) ==> !dominates(r[i], r[j])
}

/// `a` comes before `b` in best-to-worst order: higher (damage type, offense
/// bonus, strength bonus) first.
fn group_sorts_before(a: &ItemGroup, b: &ItemGroup) -> bool {
    let ta = exec_type_rank(a.attack_type);
    let tb = exec_type_rank(b.attack_type);
    ta > tb || (ta == tb && (a.attack_value > b.attack_value || (a.attack_value == b.attack_value
        && a.strength_value >= b.strength_value)))
}

/// Copy the groups, arranged from best to worst by (damage type, offense
/// bonus, strength bonus).
fn sort_groups_descending(items: &Vec<ItemGroup>) -> (r: Vec<ItemGroup>)
    ensures
        forall|i: int| 0 <= i < r@.len() ==> appears_in(#[trigger] r@[i], items@),
        forall|j: int| 0 <= j < items@.len() ==> appears_in(#[trigger] items@[j], r@),
{
    let mut r: Vec<ItemGroup> = Vec::new();
    let mut i: usize = 0;
    while i < items.len()
        invariant
            0 <= i <= items@.len(),
            forall|a: int| 0 <= a < r@.len() ==> appears_in(#[trigger] r@[a], items@),
            forall|j: int| 0 <= j < i ==> appears_in(#[trigger] items@[j], r@),
        decreases items@.len() - i,
    {
        let g = items[i].duplicate();
        let ghost old_r = r@;
        let mut pos: usize = 0;
        while pos < r.len() && group_sorts_before(&r[pos], &g)
            invariant
                0 <= pos <= r@.len(),
                r@ == old_r,
            decreases r@.len() - pos,
        {
            pos = pos + 1;
        }
        r.insert(pos, g);
        proof {
            assert(group_matches(r@[pos as int], items@[i as int]));
            assert forall|a: int| 0 <= a < r@.len() implies appears_in(#[trigger] r@[a], items@) by {
                if a < pos {
                    assert(r@[a] == old_r[a]);
                } else if a > pos {
                    assert(r@[a] == old_r[a - 1]);
                } else {
                    assert(group_matches(r@[a], items@[i as int]));
                }
            }
            assert forall|j: int| 0 <= j < i + 1 implies appears_in(#[trigger] items@[j], r@) by {
                if j < i {
                    let a = choose|a: int|
                        0 <= a < old_r.len() && group_matches(items@[j], #[trigger] old_r[a]);
                    if a < pos {
                        assert(group_matches(items@[j], r@[a]));
                    } else {
                        assert(group_matches(items@[j], r@[a + 1]));
                    }
                } else {
                    assert(group_matches(items@[j], r@[pos as int]));
                }
            }
        }
        i = i + 1;
    }
    r
}

/// Some kept group sits in `g`'s cadence bucket and dominates it.
pub open spec fn bucket_has_dominator(kept: Seq<ItemGroup>, g: ItemGroup) -> bool {
    exists|k: int|
        0 <= k < kept.len() && eff_speed(#[trigger] kept[k]) == eff_speed(g) && dominates(
            kept[k],
            g,
        )
}

fn bucket_dominates(kept: &Vec<ItemGroup>, g: &ItemGroup) -> (r: bool)
    ensures
        r == bucket_has_dominator(kept@, *g),
{
    let g_speed = exec_eff_speed(g);
    let mut t: usize = 0;
    while t < kept.len()
        invariant
            0 <= t <= kept@.len(),
            g_speed == eff_speed(*g),
            forall|k: int| 0 <= k < t ==> !(eff_speed(#[trigger] kept@[k]) == eff_speed(*g)
                && dominates(kept@[k], *g)),
        decreases kept@.len() - t,
    {
        let cur = &kept[t];
        if exec_eff_speed(cur) == g_speed && cur.attack_value >= g.attack_value
            && cur.strength_value >= g.strength_value {
            return true;
        }
        t = t + 1;
    }
    false
}

/// Prune dominated groups per cadence bucket: working from best to worst, a
/// group is kept only when no kept group in its bucket already dominates it,
/// and it evicts any kept group in its bucket that it dominates. Survivors in
/// one bucket form a Pareto frontier; buckets stay independent because a
/// slower weapon with a bigger hit can still beat a faster one.
#[verifier::rlimit(90)]
#[verifier::spinoff_prover]
pub fn filter_elided_items(items: &Vec<ItemGroup>) -> (r: Vec<ItemGroup>)
    ensures
        pruned_antichain(r@),
        forall|i: int| 0 <= i < r@.len() ==> appears_in(#[trigger] r@[i], items@),
        forall|j: int| 0 <= j < items@.len() ==> covered_by(#[trigger] items@[j], r@),
{
    let sorted = sort_groups_descending(items);
    let mut kept: Vec<ItemGroup> = Vec::new();
    let mut idx: usize = 0;
    while idx < sorted.len()
        invariant
            0 <= idx <= sorted@.len(),
            pruned_antichain(kept@),
            forall|i: int| 0 <= i < kept@.len() ==> appears_in(#[trigger] kept@[i], sorted@),
            forall|j: int| 0 <= j < idx ==> covered_by(#[trigger] sorted@[j], kept@),
        decreases sorted@.len() - idx,
    {
        let gv = &sorted[idx];
        let g_speed = exec_eff_speed(gv);
        let dominated = bucket_dominates(&kept, gv);
        if !dominated {
            let ghost base = kept@;
            let ghost gvg = sorted@[idx as int];
            let g_av = gv.attack_value;
            let g_sv = gv.strength_value;
            proof {
                assert(!bucket_has_dominator(base, gvg));
            }
            let mut u: usize = 0;
            while u < kept.len()
                invariant
                    0 <= u <= kept@.len(),
                    g_speed == eff_speed(gvg),
                    gvg == sorted@[idx as int],
                    g_av == gvg.attack_value,
                    g_sv == gvg.strength_value,
                    !bucket_has_dominator(base, gvg),
                    pruned_antichain(kept@),
                    forall|i: int| 0 <= i < kept@.len() ==> appears_in(#[trigger] kept@[i], sorted@),
                    forall|i: int| 0 <= i < kept@.len() ==> in_seq(#[trigger] kept@[i], base),
                    forall|k: int| 0 <= k < u ==> !(eff_speed(#[trigger] kept@[k]) == g_speed
                        && dominates(gvg, kept@[k])),
                    forall|j: int| 0 <= j < idx ==> (covered_by(#[trigger] sorted@[j], kept@) || (
                    eff_speed(sorted@[j]) == g_speed && dominates(gvg, sorted@[j]))),
                decreases kept@.len() - u,
            {
                let cur = &kept[u];
                if exec_eff_speed(cur) == g_speed && g_av >= cur.attack_value
                    && g_sv >= cur.strength_value {
                    let ghost removed = kept@[u as int];
                    let ghost before = kept@;
                    kept.remove(u);
                    proof {
                        assert forall|j: int| 0 <= j < idx implies (covered_by(
                            #[trigger] sorted@[j],
                            kept@,
                        ) || (eff_speed(sorted@[j]) == g_speed && dominates(gvg, sorted@[j]))) by {
                            if covered_by(sorted@[j], before) {
                                let c = choose|c: int|
                                    0 <= c < before.len() && eff_speed(#[trigger] before[c])
                                        == eff_speed(sorted@[j]) && dominates(before[c], sorted@[j]);
                                if c == u {
                                    assert(eff_speed(removed) == eff_speed(sorted@[j]));
                                    assert(dominates(gvg, removed) && dominates(removed, sorted@[j]));
                                } else if c < u {
                                    assert(kept@[c] == before[c]);
                                    assert(covered_by(sorted@[j], kept@));
                                } else {
                                    assert(kept@[c - 1] == before[c]);
                                    assert(covered_by(sorted@[j], kept@));
                                }
                            }
                        }
                        assert forall|i: int| 0 <= i < kept@.len() implies appears_in(
                            #[trigger] kept@[i],
                            sorted@,
                        ) by {
                            if i < u {
                                assert(kept@[i] == before[i]);
                            } else {
                                assert(kept@[i] == before[i + 1]);
                            }
                        }
                        assert forall|i: int| 0 <= i < kept@.len() implies in_seq(
                            #[trigger] kept@[i],
                            base,
                        ) by {
                            if i < u {
                                assert(kept@[i] == before[i]);
                            } else {
                                assert(kept@[i] == before[i + 1]);
                            }
                        }
                        assert forall|i: int, j: int|
                            0 <= i < kept@.len() && 0 <= j < kept@.len() && i != j && eff_speed(
                                #[trigger] kept@[i],
                            ) == eff_speed(#[trigger] kept@[j]) implies !dominates(
                            kept@[i],
                            kept@[j],
                        ) by {
                            let bi: int = if i < u { i } else { i + 1 };
                            let bj: int = if j < u { j } else { j + 1 };
                            assert(kept@[i] == before[bi] && kept@[j] == before[bj]);
                        }
                        assert forall|k: int| 0 <= k < u implies !(eff_speed(#[trigger] kept@[k])
                            == g_speed && dominates(gvg, kept@[k])) by {
                            assert(kept@[k] == before[k]);
                        }
                    }
                } else {
                    u = u + 1;
                }
            }
            let g = gv.duplicate();
            let ghost pre_push = kept@;
            kept.push(g);
            proof {
                assert(group_matches(kept@.last(), sorted@[idx as int]));
                assert forall|i: int, j: int|
                    0 <= i < kept@.len() && 0 <= j < kept@.len() && i != j && eff_speed(
                        #[trigger] kept@[i],
                    ) == eff_speed(#[trigger] kept@[j]) implies !dominates(kept@[i], kept@[j]) by {
                    let n = kept@.len() - 1;
                    if i < n && j < n {
                        assert(kept@[i] == pre_push[i] && kept@[j] == pre_push[j]);
                    } else if i == n {
                        assert(kept@[j] == pre_push[j]);
                        assert(!(eff_speed(pre_push[j]) == g_speed && dominates(gvg, pre_push[j])));
                        assert(eff_speed(kept@[i]) == eff_speed(gvg) && kept@[i].attack_value
                            == gvg.attack_value && kept@[i].strength_value == gvg.strength_value);
                        assert(!dominates(kept@[i], kept@[j]));
                    } else {
                        assert(kept@[i] == pre_push[i]);
                        assert(eff_speed(kept@[j]) == eff_speed(gvg) && kept@[j].attack_value
                            == gvg.attack_value && kept@[j].strength_value == gvg.strength_value);
                        assert(in_seq(pre_push[i], base));
                        let b = choose|b: int| 0 <= b < base.len() && pre_push[i] == #[trigger] base[b];
                        assert(!(eff_speed(base[b]) == g_speed && dominates(base[b], gvg))) by {
                            if eff_speed(base[b]) == g_speed && dominates(base[b], gvg) {
                                assert(!bucket_has_dominator(base, gvg));
                                assert(false);
                            }
                        }
                        assert(!dominates(kept@[i], kept@[j]));
                    }
                }
                assert forall|j: int| 0 <= j < idx + 1 implies covered_by(
                    #[trigger] sorted@[j],
                    kept@,
                ) by {
                    let n = kept@.len() - 1;
                    if j == idx {
                        assert(eff_speed(kept@[n]) == eff_speed(sorted@[j]) && dominates(
                            kept@[n],
                            sorted@[j],
                        ));
                    } else if covered_by(sorted@[j], pre_push) {
                        let c = choose|c: int|
                            0 <= c < pre_push.len() && eff_speed(#[trigger] pre_push[c])
                                == eff_speed(sorted@[j]) && dominates(pre_push[c], sorted@[j]);
                        assert(kept@[c] == pre_push[c]);
                        assert(covered_by(sorted@[j], kept@));
                    } else {
                        assert(eff_speed(sorted@[j]) == g_speed && dominates(gvg, sorted@[j]));
                        assert(eff_speed(kept@[n]) == eff_speed(sorted@[j]) && dominates(
                            kept@[n],
                            sorted@[j],
                        ));
                    }
                }
                assert forall|i: int| 0 <= i < kept@.len() implies appears_in(
                    #[trigger] kept@[i],
                    sorted@,
                ) by {
                    if i < kept@.len() - 1 {
                        assert(kept@[i] == pre_push[i]);
                    } else {
                        assert(group_matches(kept@[i], sorted@[idx as int]));
                    }
                }
            }
        } else {
            proof {
                let k = choose|k: int|
                    0 <= k < kept@.len() && eff_speed(#[trigger] kept@[k]) == g_speed && dominates(
                        kept@[k],
                        sorted@[idx as int],
                    );
                assert(covered_by(sorted@[idx as int], kept@));
            }
        }
        idx = idx + 1;
    }
    proof {
        assert forall|i: int| 0 <= i < kept@.len() implies appears_in(#[trigger] kept@[i], items@) by {
            let a = choose|a: int|
                0 <= a < sorted@.len() && group_matches(kept@[i], #[trigger] sorted@[a]);
            assert(appears_in(sorted@[a], items@));
            let b = choose|b: int|
                0 <= b < items@.len() && group_matches(sorted@[a], #[trigger] items@[b]);
            assert(group_matches(kept@[i], items@[b]));
        }
        assert forall|j: int| 0 <= j < items@.len() implies covered_by(#[trigger] items@[j], kept@) by {
            assert(appears_in(items@[j], sorted@));
            let a = choose|a: int|
                0 <= a < sorted@.len() && group_matches(items@[j], #[trigger] sorted@[a]);
            assert(covered_by(sorted@[a], kept@));
            let c = choose|c: int|
                0 <= c < kept@.len() && eff_speed(#[trigger] kept@[c]) == eff_speed(sorted@[a])
                    && dominates(kept@[c], sorted@[a]);
            assert(eff_speed(kept@[c]) == eff_speed(items@[j]) && dominates(kept@[c], items@[j]));
        }
    }
    kept
}

} // verus!
