//! Requirement breakpoints: the sorted distinct stat-requirement tiers found
//! in the catalog, and quantization of a raw stat value down to the highest
//! tier it already satisfies.
use vstd::prelude::*;

use crate::GameInt;
use crate::types::{Item, Stats};
use crate::xp::{lemma_xp_table, level_to_xp, spec_level_to_xp, spec_xp_to_level, xp_to_level,
    LEVEL_CAP, XP_AT_CAP};

verus! {

/// A quantized stat triple: (attack tier, strength tier, defence tier).
pub type Breakpoint = (GameInt, GameInt, GameInt);

/// Which governing stat a threshold list is drawn from.
#[derive(Clone, Copy, Debug, PartialEq, Eq, Structural)]
pub enum ReqStat {
    Attack,
    Strength,
    Defence,
}

/// The requirement an item declares for the given stat, if any.
pub open spec fn spec_req_field(item: Item, stat: ReqStat) -> Option<GameInt> {
    match item.equipment.requirements {
        Option::None => Option::None,
        Option::Some(reqs) => match stat {
            ReqStat::Attack => reqs.attack,
            ReqStat::Strength => reqs.strength,
            ReqStat::Defence => reqs.defence,
        },
    }
}

/// `v` is a requirement tier for `stat` somewhere in the catalog, within the
/// valid level range.
pub open spec fn is_threshold(catalog: Seq<(GameInt, Item)>, stat: ReqStat, v: GameInt) -> bool {
    &&& 1 <= v <= LEVEL_CAP
    &&& exists|i: int| 0 <= i < catalog.len() && spec_req_field(#[trigger] catalog[i].1, stat) == Some(v)
}

/// A threshold list is strictly increasing.
pub open spec fn thresholds_sorted(s: Seq<GameInt>) -> bool {
    forall|i: int, j: int| 0 <= i < j < s.len() ==> s[i] < s[j]
}

/// Every entry lies in the valid level range.
pub open spec fn thresholds_in_range(s: Seq<GameInt>) -> bool {
    forall|i: int| 0 <= i < s.len() ==> 1 <= #[trigger] s[i] <= LEVEL_CAP
}

/// Insert `v` into a strictly increasing list, keeping it strictly increasing
/// and changing membership only by adding `v`.
fn insert_sorted(list: &mut Vec<GameInt>, v: GameInt)
    requires
        thresholds_sorted(old(list)@),
    ensures
        thresholds_sorted(final(list)@),
        forall|x: GameInt| final(list)@.contains(x) <==> (old(list)@.contains(x) || x == v),
{
    let mut pos: usize = 0;
    while pos < list.len() && list[pos] < v
        invariant
            0 <= pos <= list@.len(),
            thresholds_sorted(list@),
            *list == *old(list),
            forall|j: int| 0 <= j < pos ==> list@[j] < v,
        decreases list@.len() - pos,
    {
        pos = pos + 1;
    }
    if pos < list.len() {
        let cur = list[pos];
        if cur == v {
            proof {
                assert(list@.contains(v));
            }
            return ;
        }
    }
    list.insert(pos, v);
    proof {
        let s = list@;
        let o = old(list)@;
        assert forall|i: int, j: int| 0 <= i < j < s.len() implies s[i] < s[j] by {
            if j < pos {
            } else if i < pos && j == pos {
            } else if i < pos && j > pos {
                assert(o[j - 1] >= v);
            } else if i == pos {
                assert(s[j] == o[j - 1]);
                assert(o[j - 1] >= v);
                if o[j - 1] == v {
                    assert(o.contains(o[j - 1]));
                }
            } else {
            }
        }
        assert forall|x: GameInt| s.contains(x) implies (o.contains(x) || x == v) by {
            let k = choose|k: int| 0 <= k < s.len() && s[k] == x;
            if k < pos {
                assert(o[k] == x);
            } else if k > pos {
                assert(o[k - 1] == x);
            }
        }
        assert forall|x: GameInt| o.contains(x) || x == v implies s.contains(x) by {
            if o.contains(x) {
                let k = choose|k: int| 0 <= k < o.len() && o[k] == x;
                if k < pos {
                    assert(s[k] == x);
                } else {
                    assert(s[k + 1] == x);
                }
            } else {
                assert(s[pos as int] == v);
            }
        }
    }
}

/// Collect the sorted distinct requirement tiers for one governing stat from
/// the full catalog.
pub fn requirement_thresholds(catalog: &Vec<(GameInt, Item)>, stat: ReqStat) -> (r: Vec<GameInt>)
    ensures
        thresholds_sorted(r@),
        forall|v: GameInt| r@.contains(v) <==> is_threshold(catalog@, stat, v),
{
    let mut r: Vec<GameInt> = Vec::new();
    let mut i: usize = 0;
    while i < catalog.len()
        invariant
            0 <= i <= catalog@.len(),
            thresholds_sorted(r@),
            forall|v: GameInt| r@.contains(v) <==> is_threshold(catalog@.take(i as int), stat, v),
        decreases catalog@.len() - i,
    {
        let ghost prev = r@;
        let reqs = match &catalog[i].1.equipment.requirements {
            Option::Some(reqs) => Some(*reqs),
            Option::None => None,
        };
        if let Option::Some(reqs) = reqs {
            let vo: Option<GameInt> = match stat {
                ReqStat::Attack => reqs.attack,
                ReqStat::Strength => reqs.strength,
                ReqStat::Defence => reqs.defence,
            };
            if let Option::Some(v) = vo {
                if 1 <= v && v <= LEVEL_CAP {
                    insert_sorted(&mut r, v);
                    proof {
                        assert(spec_req_field(catalog@[i as int].1, stat) == Some(v));
                    }
                }
            }
        }
        proof {
            let taken = catalog@.take(i as int);
            let taken1 = catalog@.take(i + 1);
            assert(taken1.drop_last() =~= taken);
            assert(taken1.last() == catalog@[i as int]);
            assert forall|v: GameInt| r@.contains(v) implies is_threshold(taken1, stat, v) by {
                if prev.contains(v) {
                    let k = choose|k: int|
                        0 <= k < taken.len() && spec_req_field(taken[k].1, stat) == Some(v);
                    assert(spec_req_field(taken1[k].1, stat) == Some(v));
                } else {
                    assert(spec_req_field(taken1[i as int].1, stat) == Some(v));
                }
            }
            assert forall|v: GameInt| is_threshold(taken1, stat, v) implies r@.contains(v) by {
                let k = choose|k: int|
                    0 <= k < taken1.len() && spec_req_field(taken1[k].1, stat) == Some(v);
                if k < i {
                    assert(spec_req_field(taken[k].1, stat) == Some(v));
                }
            }
        }
        i = i + 1;
    }
    proof {
        assert(catalog@.take(catalog@.len() as int) =~= catalog@);
    }
    r
}

/// Quantize `value` against a threshold list, scanning from the top: the last
/// entry not exceeding `value`, or the default tier 1 when every entry
/// exceeds it (or the list is empty).
pub open spec fn quantize_spec(bps: Seq<GameInt>, value: GameInt) -> GameInt
    decreases bps.len(),
{
    if bps.len() == 0 {
        1
    } else if bps.last() <= value {
        bps.last()
    } else {
        quantize_spec(bps.drop_last(), value)
    }
}

/// The quantized tier is 1 or an entry of the list, and in the latter case it
/// does not exceed the value.
pub proof fn lemma_quantize_bounds(bps: Seq<GameInt>, value: GameInt)
    ensures
        quantize_spec(bps, value) == 1 || (bps.contains(quantize_spec(bps, value))
            && quantize_spec(bps, value) <= value),
    decreases bps.len(),
{
    if bps.len() != 0 && !(bps.last() <= value) {
        lemma_quantize_bounds(bps.drop_last(), value);
        let q = quantize_spec(bps.drop_last(), value);
        if q != 1 {
            let k = choose|k: int| 0 <= k < bps.drop_last().len() && bps.drop_last()[k] == q;
            assert(bps[k] == q);
        }
    }
}

/// Breakpoint quantization is monotone: a higher stat value never quantizes
/// to a lower tier, provided every threshold is at least the default tier.
pub proof fn lemma_quantize_monotonic(bps: Seq<GameInt>, v1: GameInt, v2: GameInt)
    requires
        forall|i: int| 0 <= i < bps.len() ==> 1 <= #[trigger] bps[i],
        v1 <= v2,
    ensures
        quantize_spec(bps, v1) <= quantize_spec(bps, v2),
    decreases bps.len(),
{
    if bps.len() == 0 {
    } else if bps.last() <= v1 {
    } else if bps.last() <= v2 {
        lemma_quantize_bounds(bps.drop_last(), v1);
        let q = quantize_spec(bps.drop_last(), v1);
        if q != 1 {
            assert(q <= v1);
        }
    } else {
        assert(forall|i: int|
            0 <= i < bps.drop_last().len() ==> 1 <= #[trigger] bps.drop_last()[i]);
        lemma_quantize_monotonic(bps.drop_last(), v1, v2);
    }
}

/// Quantize one stat value against one threshold list.
pub fn check_breakpoint(breakpoints: &Vec<GameInt>, value: GameInt) -> (r: GameInt)
    ensures
        r == quantize_spec(breakpoints@, value),
{
    let mut n: usize = breakpoints.len();
    proof {
        assert(breakpoints@.take(n as int) =~= breakpoints@);
    }
    while n > 0
        invariant
            0 <= n <= breakpoints@.len(),
            quantize_spec(breakpoints@, value) == quantize_spec(breakpoints@.take(n as int), value),
        decreases n,
    {
        proof {
            assert(breakpoints@.take(n as int).drop_last() =~= breakpoints@.take(n - 1));
        }
        if breakpoints[n - 1] <= value {
            return breakpoints[n - 1];
        }
        n = n - 1;
    }
    1
}

/// The stat profile a breakpoint implies: the three quantized melee tiers
/// plus a hitpoints level derived from one third of the summed experience;
/// prayer, ranged and magic are absent.
pub open spec fn spec_breakpoint_stats(breakpoint: Breakpoint) -> Stats
    recommends
        1 <= breakpoint.0 <= LEVEL_CAP,
        1 <= breakpoint.1 <= LEVEL_CAP,
        1 <= breakpoint.2 <= LEVEL_CAP,
{
    let total_xp = spec_level_to_xp(breakpoint.0) + spec_level_to_xp(breakpoint.1)
        + spec_level_to_xp(breakpoint.2);
    Stats {
        attack: Some(breakpoint.0),
        strength: Some(breakpoint.1),
        defence: Some(breakpoint.2),
        hitpoints: Some(spec_xp_to_level((total_xp / 3) as u64)),
        prayer: Option::None,
        ranged: Option::None,
        magic: Option::None,
    }
}

/// Derive the full stat profile from a breakpoint.
pub fn breakpoint_stats(breakpoint: Breakpoint) -> (r: Stats)
    requires
        1 <= breakpoint.0 <= LEVEL_CAP,
        1 <= breakpoint.1 <= LEVEL_CAP,
        1 <= breakpoint.2 <= LEVEL_CAP,
    ensures
        r == spec_breakpoint_stats(breakpoint),
{
    proof {
        lemma_xp_table();
    }
    let a = level_to_xp(breakpoint.0);
    let s = level_to_xp(breakpoint.1);
    let d = level_to_xp(breakpoint.2);
    assert(a <= XP_AT_CAP && s <= XP_AT_CAP && d <= XP_AT_CAP);
    let total_xp = a + s + d;
    let hp_level = xp_to_level(total_xp / 3);
    Stats {
        attack: Some(breakpoint.0),
        strength: Some(breakpoint.1),
        defence: Some(breakpoint.2),
        hitpoints: Some(hp_level),
        prayer: Option::None,
        ranged: Option::None,
        magic: Option::None,
    }
}

} // verus!
