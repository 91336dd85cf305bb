//! Shortest-path training search: a generic non-negative-weight search over
//! stat triples, with the successor expansion as the adjacency function and
//! fixed-point micro-hours as edge weight. A sentinel node carries the fatal
//! no-usable-weapon error out of the expansion.
use vstd::prelude::*;

use crate::GameInt;
use crate::gear::GearCache;
use crate::item_group::ItemGroup;
use crate::level::{groups_bounded, is_melee_style, is_style_step, slot_at, spec_bump,
    spec_capped, Melee, TrainError};
use crate::xp::LEVEL_CAP;

verus! {

/// A search node: a stat triple, or the sentinel (`None`) a failed style
/// expansion steps to.
pub type SearchNode = Option<(GameInt, GameInt, GameInt)>;

/// All three stats lie in the valid level range.
pub open spec fn valid_triple(t: (GameInt, GameInt, GameInt)) -> bool {
    &&& 1 <= t.0 <= LEVEL_CAP
    &&& 1 <= t.1 <= LEVEL_CAP
    &&& 1 <= t.2 <= LEVEL_CAP
}

/// The state a triple stands for, with no gear attached.
pub open spec fn as_melee(t: (GameInt, GameInt, GameInt)) -> Melee {
    Melee {
        attack: crate::level::Level { value: t.0 },
        strength: crate::level::Level { value: t.1 },
        defence: crate::level::Level { value: t.2 },
        gear_that_got_us_here: Option::None,
    }
}

/// One edge the search may traverse: a valid triple steps either to the
/// bumped triple of an uncapped training style, or to the sentinel at no
/// cost when the expansion reported the fatal configuration error. The
/// sentinel has no outgoing edges.
pub open spec fn step_edge(cache: GearCache, goal: (GameInt, GameInt, GameInt), a: SearchNode,
    b: SearchNode, c: u64) -> bool {
    match a {
        Option::None => false,
        Option::Some(t) => {
            &&& valid_triple(t)
            &&& valid_triple(goal)
            &&& match b {
                Option::None => c == 0,
                Option::Some(t2) => is_style_step(as_melee(t), as_melee(goal), as_melee(t2)),
            }
        },
    }
}

/// The goal test: the sentinel terminates the search (the error is then
/// reported), as does reaching the goal triple; gear never participates.
pub fn search_is_terminal(n: SearchNode, goal: (GameInt, GameInt, GameInt)) -> (r: bool)
    ensures
        r == (n is None || n == Some(goal)),
{
    match n {
        Option::None => true,
        Option::Some(t) => t.0 == goal.0 && t.1 == goal.1 && t.2 == goal.2,
    }
}

/// The adjacency function of the search: expand a triple's training styles;
/// a failed expansion yields the single zero-cost sentinel edge, and nodes
/// outside the valid range (and the sentinel itself) expand to nothing.
pub fn search_step(cache: &GearCache, goal: (GameInt, GameInt, GameInt), node: SearchNode) -> (r:
    Vec<(SearchNode, u64)>)
    requires
        cache.wf(),
    ensures
        forall|i: int|
            0 <= i < r@.len() ==> step_edge(*cache, goal, node, (#[trigger] r@[i]).0, r@[i].1),
{
    let t = match node {
        Option::None => {
            return Vec::new();
        },
        Option::Some(t) => t,
    };
    let in_range = 1 <= t.0 && t.0 <= LEVEL_CAP && 1 <= t.1 && t.1 <= LEVEL_CAP && 1 <= t.2 && t.2
        <= LEVEL_CAP && 1 <= goal.0 && goal.0 <= LEVEL_CAP && 1 <= goal.1 && goal.1 <= LEVEL_CAP
        && 1 <= goal.2 && goal.2 <= LEVEL_CAP;
    if !in_range {
        return Vec::new();
    }
    let me = Melee::new(t.0, t.1, t.2, Option::None);
    let goal_state = Melee::new(goal.0, goal.1, goal.2, Option::None);
    match me.successors(cache, &goal_state) {
        Result::Err(_) => {
            let mut r: Vec<(SearchNode, u64)> = Vec::new();
            r.push((Option::None, 0));
            r
        },
        Result::Ok(v) => {
            let mut r: Vec<(SearchNode, u64)> = Vec::new();
            let mut i: usize = 0;
            while i < v.len()
                invariant
                    0 <= i <= v@.len(),
                    r@.len() == i,
                    node == Some(t),
                    valid_triple(t),
                    valid_triple(goal),
                    cache.wf(),
                    forall|idx: int|
                        0 <= idx < v@.len() ==> is_style_step(me, goal_state, (
                        #[trigger] v@[idx]).0),
                    me == as_melee(t),
                    goal_state == as_melee(goal),
                    forall|idx: int|
                        0 <= idx < i ==> step_edge(*cache, goal, node, (#[trigger] r@[idx]).0,
                        r@[idx].1),
                decreases v@.len() - i,
            {
                let m = &v[i].0;
                r.push((Some((m.attack.value, m.strength.value, m.defence.value)), v[i].1));
                proof {
                    assert(is_style_step(me, goal_state, v@[i as int].0));
                    let st = choose|st: crate::types::AttackStyle|
                        #[trigger] is_melee_style(st) && !spec_capped(me, st, goal_state) && (
                        v@[i as int]).0.attack.value == spec_bump(me, st).0 && v@[i as int]
                            .0.strength.value == spec_bump(me, st).1 && v@[i as int]
                            .0.defence.value == spec_bump(me, st).2;
                    let m2 = v@[i as int].0;
                    let t2 = (m2.attack.value, m2.strength.value, m2.defence.value);
                    assert(is_melee_style(st) && !spec_capped(as_melee(t), st, as_melee(goal))
                        && as_melee(t2).attack.value == spec_bump(as_melee(t), st).0 && as_melee(
                        t2,
                    ).strength.value == spec_bump(as_melee(t), st).1 && as_melee(t2).defence.value
                        == spec_bump(as_melee(t), st).2);
                    assert(is_style_step(as_melee(t), as_melee(goal), as_melee(t2)));
                    assert(step_edge(*cache, goal, node, r@[i as int].0, r@[i as int].1));
                }
                i = i + 1;
            }
            r
        },
    }
}

/// Sum of a cost sequence.
pub open spec fn total_of(cs: Seq<u64>) -> int
    decreases cs.len(),
{
    if cs.len() == 0 {
        0
    } else {
        total_of(cs.drop_last()) + cs.last()
    }
}

/// Relies on pathfinding's dijkstra: computes a shortest path from the start
/// node to a node accepted by the goal test, expanding nodes through the
/// verified adjacency function, and returns the path (both endpoints
/// included) with the summed edge costs, or nothing when no such path was
/// found.
#[verifier::external_body]
fn dijkstra_search(cache: &GearCache, start: (GameInt, GameInt, GameInt), goal: (
    GameInt,
    GameInt,
    GameInt,
)) -> (r: Option<(Vec<SearchNode>, u64)>)
    requires
        cache.wf(),
    ensures
        match r {
            Option::Some(pc) => {
                &&& pc.0@.len() >= 1
                &&& pc.0@[0] == Some(start)
                &&& (pc.0@.last() is None || pc.0@.last() == Some(goal))
                &&& exists|cs: Seq<u64>|
                    {
                        &&& cs.len() + 1 == pc.0@.len()
                        &&& forall|i: int|
                            0 <= i < cs.len() ==> step_edge(
                                *cache,
                                goal,
                                #[trigger] pc.0@[i],
                                pc.0@[i + 1],
                                cs[i],
                            )
                        &&& #[trigger] total_of(cs) == pc.1
                    }
            },
            Option::None => true,
        },
{
    pathfinding::prelude::dijkstra(
        &Some(start),
        |n: &SearchNode| search_step(cache, goal, *n),
        |n: &SearchNode| search_is_terminal(*n, goal),
    )
}

/// `cur` was reached from the state at `prev` by one training style whose
/// expansion succeeded with weight `c` for some `c`: the recorded loadout
/// is drawn from the buckets at `prev`'s breakpoint, costs exactly the
/// step's weight, and no candidate choice from those buckets costs less.
pub open spec fn reached_with_gear(cache: GearCache, prev: (GameInt, GameInt, GameInt),
    cur: Melee) -> bool {
    exists|st: crate::types::AttackStyle, c: u64|
        #[trigger] crate::level::is_successor_outcome(cache, prev, st, cur, c) && is_melee_style(
            st,
        )
}

/// Take one verified training step from the state at `prev_t`: the advanced
/// state carries its recorded loadout, or the fatal configuration error.
fn advance_one(gear_cache: &GearCache, prev_t: (GameInt, GameInt, GameInt),
    style: crate::types::AttackStyle, goal: &Melee) -> (r: Result<Melee, TrainError>)
    requires
        gear_cache.wf(),
        goal.wf(),
        valid_triple(prev_t),
        is_melee_style(style),
        !spec_capped(as_melee(prev_t), style, *goal),
    ensures
        match r {
            Result::Ok(m) => {
                &&& m.attack.value == spec_bump(as_melee(prev_t), style).0
                &&& m.strength.value == spec_bump(as_melee(prev_t), style).1
                &&& m.defence.value == spec_bump(as_melee(prev_t), style).2
                &&& reached_with_gear(*gear_cache, prev_t, m)
            },
            Result::Err(e) => e == TrainError::NoUsableWeapon,
        },
{
    let prev_m = Melee::new(prev_t.0, prev_t.1, prev_t.2, Option::None);
    match prev_m.successor(style, gear_cache, goal) {
        Result::Err(e) => Result::Err(e),
        Result::Ok(Option::None) => {
            // unreachable: an uncapped style never yields an empty step
            proof {
                assert(false);
            }
            Result::Err(TrainError::NoUsableWeapon)
        },
        Result::Ok(Option::Some(pair)) => {
            proof {
                assert(crate::level::is_successor_outcome(
                    *gear_cache,
                    prev_t,
                    style,
                    pair.0,
                    pair.1,
                ) && is_melee_style(style));
                assert(reached_with_gear(*gear_cache, prev_t, pair.0));
            }
            Result::Ok(pair.0)
        },
    }
}

/// Find the minimum-total-time training route from `start` to `goal`: the
/// sequence of states passed through, each carrying the gear worn to reach
/// it, and the total micro-hours. Returns no route when the goal cannot be
/// reached (a goal below the start, or the cap in the way), and the fatal
/// configuration error when the search ran into a state whose expansion
/// found no usable weapon.
#[verifier::rlimit(90)]
#[verifier::spinoff_prover]
pub fn find_training_path(gear_cache: &GearCache, start: &Melee, goal: &Melee) -> (r: Result<
    Option<(Vec<Melee>, u64)>,
    TrainError,
>)
    requires
        gear_cache.wf(),
        start.wf(),
        goal.wf(),
    ensures
        match r {
            Result::Ok(opt) => match opt {
                Option::None => true,
                Option::Some(pc) => {
                    &&& pc.0@.len() >= 1
                    &&& pc.0@[0].attack.value == start.attack.value
                    &&& pc.0@[0].strength.value == start.strength.value
                    &&& pc.0@[0].defence.value == start.defence.value
                    &&& pc.0@.last().attack.value == goal.attack.value
                    &&& pc.0@.last().strength.value == goal.strength.value
                    &&& pc.0@.last().defence.value == goal.defence.value
                    &&& forall|i: int|
                        1 <= i < pc.0@.len() ==> reached_with_gear(
                            *gear_cache,
                            (pc.0@[i - 1].attack.value, pc.0@[i - 1].strength.value, pc.0@[i
                                - 1].defence.value),
                            #[trigger] pc.0@[i],
                        )
                    &&& exists|cs: Seq<u64>|
                        {
                            &&& cs.len() + 1 == pc.0@.len()
                            &&& forall|i: int|
                                0 <= i < cs.len() ==> step_edge(
                                    *gear_cache,
                                    (goal.attack.value, goal.strength.value, goal.defence.value),
                                    Some(((#[trigger] pc.0@[i]).attack.value, pc.0@[i]
                                        .strength.value, pc.0@[i].defence.value)),
                                    Some((pc.0@[i + 1].attack.value, pc.0@[i + 1].strength.value,
                                    pc.0@[i + 1].defence.value)),
                                    cs[i],
                                )
                            &&& #[trigger] total_of(cs) == pc.1
                        }
                },
            },
            Result::Err(e) => e == TrainError::NoUsableWeapon,
        },
{
    let start_t = (start.attack.value, start.strength.value, start.defence.value);
    let goal_t = (goal.attack.value, goal.strength.value, goal.defence.value);
    let found = dijkstra_search(gear_cache, start_t, goal_t);
    let (nodes, total) = match found {
        Option::None => {
            return Result::Ok(Option::None);
        },
        Option::Some(pc) => pc,
    };
    let ghost cs = choose|cs: Seq<u64>|
        {
            &&& cs.len() + 1 == nodes@.len()
            &&& forall|i: int|
                0 <= i < cs.len() ==> step_edge(
                    *gear_cache,
                    goal_t,
                    #[trigger] nodes@[i],
                    nodes@[i + 1],
                    cs[i],
                )
            &&& #[trigger] total_of(cs) == total
        };
    if nodes[nodes.len() - 1].is_none() {
        return Result::Err(TrainError::NoUsableWeapon);
    }
    proof {
        assert forall|i: int| 0 <= i < nodes@.len() implies (#[trigger] nodes@[i]) is Some by {
            if i < nodes@.len() - 1 {
                assert(step_edge(*gear_cache, goal_t, nodes@[i], nodes@[i + 1], cs[i]));
            }
        }
    }
    let mut path: Vec<Melee> = Vec::new();
    path.push(Melee::new(start_t.0, start_t.1, start_t.2, Option::None));
    let mut i: usize = 1;
    while i < nodes.len()
        invariant
            gear_cache.wf(),
            start.wf(),
            goal.wf(),
            1 <= i <= nodes@.len(),
            path@.len() == i,
            nodes@.len() >= 1,
            cs.len() + 1 == nodes@.len(),
            forall|k: int|
                0 <= k < cs.len() ==> step_edge(
                    *gear_cache,
                    goal_t,
                    #[trigger] nodes@[k],
                    nodes@[k + 1],
                    cs[k],
                ),
            forall|k: int| 0 <= k < nodes@.len() ==> (#[trigger] nodes@[k]) is Some,
            nodes@[0] == Some(start_t),
            start_t == (start.attack.value, start.strength.value, start.defence.value),
            goal_t == (goal.attack.value, goal.strength.value, goal.defence.value),
            forall|k: int|
                0 <= k < i ==> (((#[trigger] path@[k]).attack.value, path@[k].strength.value,
                path@[k].defence.value) == nodes@[k]->0),
            path@[0].gear_that_got_us_here is None,
            forall|k: int|
                1 <= k < i ==> reached_with_gear(
                    *gear_cache,
                    (path@[k - 1].attack.value, path@[k - 1].strength.value, path@[k
                        - 1].defence.value),
                    #[trigger] path@[k],
                ),
        decreases nodes@.len() - i,
    {
        let prev_t = nodes[i - 1].unwrap();
        let cur_t = nodes[i].unwrap();
        proof {
            assert(step_edge(*gear_cache, goal_t, nodes@[i - 1], nodes@[i as int], cs[i - 1]));
        }
        let style = if cur_t.0 == prev_t.0 + 1 {
            crate::types::AttackStyle::Accurate
        } else if cur_t.1 == prev_t.1 + 1 {
            crate::types::AttackStyle::Aggressive
        } else {
            crate::types::AttackStyle::Defensive
        };
        proof {
            let st0 = choose|st0: crate::types::AttackStyle|
                #[trigger] is_melee_style(st0) && !spec_capped(as_melee(prev_t), st0, as_melee(
                    goal_t,
                )) && as_melee(cur_t).attack.value == spec_bump(as_melee(prev_t), st0).0 && as_melee(
                    cur_t,
                ).strength.value == spec_bump(as_melee(prev_t), st0).1 && as_melee(
                    cur_t,
                ).defence.value == spec_bump(as_melee(prev_t), st0).2;
            assert(st0 == style);
            assert(!spec_capped(as_melee(prev_t), style, as_melee(goal_t)));
            assert(!spec_capped(as_melee(prev_t), style, *goal));
        }
        let m = match advance_one(gear_cache, prev_t, style, goal) {
            Result::Err(e) => {
                return Result::Err(e);
            },
            Result::Ok(m) => m,
        };
        proof {
            assert((m.attack.value, m.strength.value, m.defence.value) == cur_t);
        }
        path.push(m);
        proof {
            let n = path@.len() - 1;
            assert((path@[n - 1].attack.value, path@[n - 1].strength.value, path@[n
                - 1].defence.value) == prev_t);
            assert(reached_with_gear(*gear_cache, prev_t, path@[n]));
            assert forall|k: int| 1 <= k < i + 1 implies reached_with_gear(
                *gear_cache,
                (path@[k - 1].attack.value, path@[k - 1].strength.value, path@[k
                    - 1].defence.value),
                #[trigger] path@[k],
            ) by {
                if k < i {
                    assert(path@[k - 1] == path@.drop_last()[k - 1] && path@[k]
                        == path@.drop_last()[k]);
                }
            }
        }
        i = i + 1;
    }
    proof {
        assert(nodes@.last() == Some(goal_t));
        assert(path@.last().attack.value == goal.attack.value && path@.last().strength.value
            == goal.strength.value && path@.last().defence.value == goal.defence.value);
        assert forall|k: int| 0 <= k < cs.len() implies step_edge(
            *gear_cache,
            goal_t,
            Some(((#[trigger] path@[k]).attack.value, path@[k].strength.value,
            path@[k].defence.value)),
            Some((path@[k + 1].attack.value, path@[k + 1].strength.value, path@[k
                + 1].defence.value)),
            cs[k],
        ) by {
            assert(step_edge(*gear_cache, goal_t, nodes@[k], nodes@[k + 1], cs[k]));
            assert(Some((path@[k].attack.value, path@[k].strength.value, path@[k].defence.value))
                == nodes@[k]);
            assert(Some((path@[k + 1].attack.value, path@[k + 1].strength.value, path@[k
                + 1].defence.value)) == nodes@[k + 1]);
        }
        assert(total_of(cs) == total);
        assert(cs.len() + 1 == path@.len());
    }
    Result::Ok(Some((path, total)))
}

} // verus!
