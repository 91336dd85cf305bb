//! The experience table: a monotonically increasing lookup from level to
//! cumulative experience, valid for levels 1 through 127 (the level cap this
//! crate uses throughout).
use vstd::prelude::*;

use crate::GameInt;

verus! {

/// Highest attainable level; progression stops here.
pub const LEVEL_CAP: GameInt = 127;

/// Largest cumulative experience total in the table (the level-127 entry).
pub const XP_AT_CAP: u64 = 208545572;

/// Cumulative experience required to hold each level: `xp_at(l - 1)` is the
/// experience at which level `l` is reached, for `l` in `1..=127`. Reading
/// past the last entry yields the final entry.
pub open spec fn xp_at(l: int) -> u64 {
    if l == 0 {
        0
    } else
    if l == 1 {
        83
    } else
    if l == 2 {
        174
    } else
    if l == 3 {
        276
    } else
    if l == 4 {
        388
    } else
    if l == 5 {
        512
    } else
    if l == 6 {
        650
    } else
    if l == 7 {
        801
    } else
    if l == 8 {
        969
    } else
    if l == 9 {
        1154
    } else
    if l == 10 {
        1358
    } else
    if l == 11 {
        1584
    } else
    if l == 12 {
        1833
    } else
    if l == 13 {
        2107
    } else
    if l == 14 {
        2411
    } else
    if l == 15 {
        2746
    } else
    if l == 16 {
        3115
    } else
    if l == 17 {
        3523
    } else
    if l == 18 {
        3973
    } else
    if l == 19 {
        4470
    } else
    if l == 20 {
        5018
    } else
    if l == 21 {
        5624
    } else
    if l == 22 {
        6291
    } else
    if l == 23 {
        7028
    } else
    if l == 24 {
        7842
    } else
    if l == 25 {
        8740
    } else
    if l == 26 {
        9730
    } else
    if l == 27 {
        10824
    } else
    if l == 28 {
        12031
    } else
    if l == 29 {
        13363
    } else
    if l == 30 {
        14833
    } else
    if l == 31 {
        16456
    } else
    if l == 32 {
        18247
    } else
    if l == 33 {
        20224
    } else
    if l == 34 {
        22406
    } else
    if l == 35 {
        24815
    } else
    if l == 36 {
        27473
    } else
    if l == 37 {
        30408
    } else
    if l == 38 {
        33648
    } else
    if l == 39 {
        37224
    } else
    if l == 40 {
        41171
    } else
    if l == 41 {
        45529
    } else
    if l == 42 {
        50339
    } else
    if l == 43 {
        55649
    } else
    if l == 44 {
        61512
    } else
    if l == 45 {
        67983
    } else
    if l == 46 {
        75127
    } else
    if l == 47 {
        83014
    } else
    if l == 48 {
        91721
    } else
    if l == 49 {
        101333
    } else
    if l == 50 {
        111945
    } else
    if l == 51 {
        123660
    } else
    if l == 52 {
        136594
    } else
    if l == 53 {
        150872
    } else
    if l == 54 {
        166636
    } else
    if l == 55 {
        184040
    } else
    if l == 56 {
        203254
    } else
    if l == 57 {
        224466
    } else
    if l == 58 {
        247886
    } else
    if l == 59 {
        273742
    } else
    if l == 60 {
        302288
    } else
    if l == 61 {
        333804
    } else
    if l == 62 {
        368599
    } else
    if l == 63 {
        407015
    } else
    if l == 64 {
        449428
    } else
    if l == 65 {
        496254
    } else
    if l == 66 {
        547953
    } else
    if l == 67 {
        605032
    } else
    if l == 68 {
        668051
    } else
    if l == 69 {
        737627
    } else
    if l == 70 {
        814445
    } else
    if l == 71 {
        899257
    } else
    if l == 72 {
        992895
    } else
    if l == 73 {
        1096278
    } else
    if l == 74 {
        1210421
    } else
    if l == 75 {
        1336443
    } else
    if l == 76 {
        1475581
    } else
    if l == 77 {
        1629200
    } else
    if l == 78 {
        1798808
    } else
    if l == 79 {
        1986068
    } else
    if l == 80 {
        2192818
    } else
    if l == 81 {
        2421087
    } else
    if l == 82 {
        2673114
    } else
    if l == 83 {
        2951373
    } else
    if l == 84 {
        3258594
    } else
    if l == 85 {
        3597792
    } else
    if l == 86 {
        3972294
    } else
    if l == 87 {
        4385776
    } else
    if l == 88 {
        4842295
    } else
    if l == 89 {
        5346332
    } else
    if l == 90 {
        5902831
    } else
    if l == 91 {
        6517253
    } else
    if l == 92 {
        7195629
    } else
    if l == 93 {
        7944614
    } else
    if l == 94 {
        8771558
    } else
    if l == 95 {
        9684577
    } else
    if l == 96 {
        10692629
    } else
    if l == 97 {
        11805606
    } else
    if l == 98 {
        13034431
    } else
    if l == 99 {
        14391160
    } else
    if l == 100 {
        15889109
    } else
    if l == 101 {
        17542976
    } else
    if l == 102 {
        19368992
    } else
    if l == 103 {
        21385073
    } else
    if l == 104 {
        23611006
    } else
    if l == 105 {
        26068632
    } else
    if l == 106 {
        28782069
    } else
    if l == 107 {
        31777943
    } else
    if l == 108 {
        35085654
    } else
    if l == 109 {
        38737661
    } else
    if l == 110 {
        42769801
    } else
    if l == 111 {
        47221641
    } else
    if l == 112 {
        52136869
    } else
    if l == 113 {
        57563718
    } else
    if l == 114 {
        63555443
    } else
    if l == 115 {
        70170840
    } else
    if l == 116 {
        77474828
    } else
    if l == 117 {
        85539082
    } else
    if l == 118 {
        94442737
    } else
    if l == 119 {
        104273167
    } else
    if l == 120 {
        115126838
    } else
    if l == 121 {
        127110260
    } else
    if l == 122 {
        140341028
    } else
    if l == 123 {
        154948977
    } else
    if l == 124 {
        171077457
    } else
    if l == 125 {
        188884740
    } else {
        208545572
    }
}

/// The table entries are strictly increasing over the valid index range and
/// never exceed the level-cap entry.
pub proof fn lemma_xp_table()
    ensures
        forall|i: int| 0 <= i < 126 ==> #[trigger] xp_at(i) < xp_at(i + 1),
        forall|i: int| 0 <= i < 127 ==> #[trigger] xp_at(i) <= XP_AT_CAP,
{
}

/// Strict monotonicity between any two valid indices.
pub proof fn lemma_xp_table_sorted(i: int, j: int)
    requires
        0 <= i < j < 127,
    ensures
        xp_at(i) < xp_at(j),
    decreases j - i,
{
    lemma_xp_table();
    if j > i + 1 {
        lemma_xp_table_sorted(i, j - 1);
    }
}

fn xp_at_exec(l: usize) -> (r: u64)
    requires
        l < 127,
    ensures
        r == xp_at(l as int),
{
    match l {
        0 => 0,
        1 => 83,
        2 => 174,
        3 => 276,
        4 => 388,
        5 => 512,
        6 => 650,
        7 => 801,
        8 => 969,
        9 => 1154,
        10 => 1358,
        11 => 1584,
        12 => 1833,
        13 => 2107,
        14 => 2411,
        15 => 2746,
        16 => 3115,
        17 => 3523,
        18 => 3973,
        19 => 4470,
        20 => 5018,
        21 => 5624,
        22 => 6291,
        23 => 7028,
        24 => 7842,
        25 => 8740,
        26 => 9730,
        27 => 10824,
        28 => 12031,
        29 => 13363,
        30 => 14833,
        31 => 16456,
        32 => 18247,
        33 => 20224,
        34 => 22406,
        35 => 24815,
        36 => 27473,
        37 => 30408,
        38 => 33648,
        39 => 37224,
        40 => 41171,
        41 => 45529,
        42 => 50339,
        43 => 55649,
        44 => 61512,
        45 => 67983,
        46 => 75127,
        47 => 83014,
        48 => 91721,
        49 => 101333,
        50 => 111945,
        51 => 123660,
        52 => 136594,
        53 => 150872,
        54 => 166636,
        55 => 184040,
        56 => 203254,
        57 => 224466,
        58 => 247886,
        59 => 273742,
        60 => 302288,
        61 => 333804,
        62 => 368599,
        63 => 407015,
        64 => 449428,
        65 => 496254,
        66 => 547953,
        67 => 605032,
        68 => 668051,
        69 => 737627,
        70 => 814445,
        71 => 899257,
        72 => 992895,
        73 => 1096278,
        74 => 1210421,
        75 => 1336443,
        76 => 1475581,
        77 => 1629200,
        78 => 1798808,
        79 => 1986068,
        80 => 2192818,
        81 => 2421087,
        82 => 2673114,
        83 => 2951373,
        84 => 3258594,
        85 => 3597792,
        86 => 3972294,
        87 => 4385776,
        88 => 4842295,
        89 => 5346332,
        90 => 5902831,
        91 => 6517253,
        92 => 7195629,
        93 => 7944614,
        94 => 8771558,
        95 => 9684577,
        96 => 10692629,
        97 => 11805606,
        98 => 13034431,
        99 => 14391160,
        100 => 15889109,
        101 => 17542976,
        102 => 19368992,
        103 => 21385073,
        104 => 23611006,
        105 => 26068632,
        106 => 28782069,
        107 => 31777943,
        108 => 35085654,
        109 => 38737661,
        110 => 42769801,
        111 => 47221641,
        112 => 52136869,
        113 => 57563718,
        114 => 63555443,
        115 => 70170840,
        116 => 77474828,
        117 => 85539082,
        118 => 94442737,
        119 => 104273167,
        120 => 115126838,
        121 => 127110260,
        122 => 140341028,
        123 => 154948977,
        124 => 171077457,
        125 => 188884740,
        126 => 208545572,
        _ => 0,
    }
}

/// Cumulative experience at which `level` is reached.
pub open spec fn spec_level_to_xp(level: GameInt) -> u64
    recommends
        1 <= level <= LEVEL_CAP,
{
    xp_at(level - 1)
}

pub fn level_to_xp(level: GameInt) -> (r: u64)
    requires
        1 <= level <= LEVEL_CAP,
    ensures
        r == spec_level_to_xp(level),
{
    xp_at_exec((level - 1) as usize)
}

/// The level reached with `xp` cumulative experience, scanning candidate
/// levels from `l` down: the highest level at most `l` whose table entry does
/// not exceed `xp`, or level 1 when none does.
pub open spec fn spec_xp_to_level_from(xp: u64, l: int) -> GameInt
    decreases l,
{
    if l <= 1 {
        1
    } else if xp_at(l - 1) <= xp {
        l as GameInt
    } else {
        spec_xp_to_level_from(xp, l - 1)
    }
}

/// The level reached with `xp` cumulative experience.
pub open spec fn spec_xp_to_level(xp: u64) -> GameInt {
    spec_xp_to_level_from(xp, LEVEL_CAP as int)
}

pub proof fn lemma_xp_to_level_from_range(xp: u64, l: int)
    requires
        1 <= l <= LEVEL_CAP,
    ensures
        1 <= spec_xp_to_level_from(xp, l) <= l,
    decreases l,
{
    if l > 1 && !(xp_at(l - 1) <= xp) {
        lemma_xp_to_level_from_range(xp, l - 1);
    }
}

pub fn xp_to_level(xp: u64) -> (r: GameInt)
    requires
        true,
    ensures
        1 <= r <= LEVEL_CAP,
        r == spec_xp_to_level(xp),
{
    proof {
        lemma_xp_to_level_from_range(xp, LEVEL_CAP as int);
    }
    let mut l: usize = 127;
    while l > 1
        invariant
            1 <= l <= 127,
            spec_xp_to_level(xp) == spec_xp_to_level_from(xp, l as int),
        decreases l,
    {
        if xp_at_exec(l - 1) <= xp {
            return l as GameInt;
        }
        l = l - 1;
    }
    1
}

} // verus!
