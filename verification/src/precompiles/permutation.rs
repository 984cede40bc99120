//! The order of the bits of a Keccak state, and the rotation and the permutation of its lanes.
use vstd::prelude::*;

use crate::mle::slice_to_vec;
use crate::precompiles::keccak::{
    lemma_lanes, lemma_rotation_constant, rotation_constant, source_lane, target_lane,
};

verus! {

pub const X: usize = 5;

pub const Y: usize = 5;

pub const Z: usize = 64;

/// The number of bits of a state.
pub const STATE_SIZE: usize = 1600;

/// The number of bits of the parities of the columns.
pub const C_SIZE: usize = 320;

/// The number of bits that are added to the columns.
pub const D_SIZE: usize = 320;

/// The coordinates of a bit.
pub fn to_xyz(i: usize) -> (r: (usize, usize, usize))
    requires
        i < STATE_SIZE,
    ensures
        r.0 == i / 64 % 5,
        r.1 == i / 64 / 5,
        r.2 == i % 64,
        r.0 < 5 && r.1 < 5 && r.2 < 64,
{
    (i / 64 % 5, (i / 64) / 5, i % 64)
}

/// The bit with the given coordinates.
pub open spec fn spec_from_xyz(x: int, y: int, z: int) -> int {
    64 * (5 * y + x) + z
}

/// The bit with the given coordinates.
pub fn from_xyz(x: usize, y: usize, z: usize) -> (r: usize)
    requires
        x < 5,
        y < 5,
        z < 64,
    ensures
        r == spec_from_xyz(x as int, y as int, z as int),
        r < STATE_SIZE,
{
    64 * (5 * y + x) + z
}

/// The bit of a column with the given coordinates.
pub fn from_xz(x: usize, z: usize) -> (r: usize)
    requires
        x < 5,
        z < 64,
    ensures
        r == 64 * x + z,
        r < C_SIZE,
{
    x * 64 + z
}

/// Bits and coordinates correspond.
pub proof fn lemma_xyz(i: int, x: int, y: int, z: int)
    requires
        0 <= i < STATE_SIZE,
        0 <= x < 5,
        0 <= y < 5,
        0 <= z < 64,
    ensures
        spec_from_xyz(i / 64 % 5, i / 64 / 5, i % 64) == i,
        spec_from_xyz(x, y, z) / 64 % 5 == x,
        spec_from_xyz(x, y, z) / 64 / 5 == y,
        spec_from_xyz(x, y, z) % 64 == z,
        0 <= spec_from_xyz(x, y, z) < STATE_SIZE,
{
}

/// The lanes that are rotated, in the order of their rotations.
pub open spec fn walk_lane(t: int) -> int {
    if t == 0 {
        1
    } else if t == 1 {
        10
    } else if t == 2 {
        7
    } else if t == 3 {
        11
    } else if t == 4 {
        17
    } else if t == 5 {
        18
    } else if t == 6 {
        3
    } else if t == 7 {
        5
    } else if t == 8 {
        16
    } else if t == 9 {
        8
    } else if t == 10 {
        21
    } else if t == 11 {
        24
    } else if t == 12 {
        4
    } else if t == 13 {
        15
    } else if t == 14 {
        23
    } else if t == 15 {
        19
    } else if t == 16 {
        13
    } else if t == 17 {
        12
    } else if t == 18 {
        2
    } else if t == 19 {
        20
    } else if t == 20 {
        14
    } else if t == 21 {
        22
    } else if t == 22 {
        9
    } else {
        6
    }
}

/// When a lane other than the first is rotated.
pub open spec fn walk_position(lane: int) -> int {
    if lane == 1 {
        0
    } else if lane == 2 {
        18
    } else if lane == 3 {
        6
    } else if lane == 4 {
        12
    } else if lane == 5 {
        7
    } else if lane == 6 {
        23
    } else if lane == 7 {
        2
    } else if lane == 8 {
        9
    } else if lane == 9 {
        22
    } else if lane == 10 {
        1
    } else if lane == 11 {
        3
    } else if lane == 12 {
        17
    } else if lane == 13 {
        16
    } else if lane == 14 {
        20
    } else if lane == 15 {
        13
    } else if lane == 16 {
        8
    } else if lane == 17 {
        4
    } else if lane == 18 {
        5
    } else if lane == 19 {
        15
    } else if lane == 20 {
        19
    } else if lane == 21 {
        10
    } else if lane == 22 {
        21
    } else if lane == 23 {
        14
    } else {
        11
    }
}

/// The walk visits each lane but the first, with the rotation of that lane.
#[verifier::spinoff_prover]
#[verifier::rlimit(30)]
proof fn lemma_walk(t: int)
    requires
        0 <= t < 24,
    ensures
        1 <= walk_lane(t) < 25,
        walk_position(walk_lane(t)) == t,
        t < 23 ==> walk_lane(t + 1) == target_lane(walk_lane(t)),
        rotation_constant(walk_lane(t)) == ((t + 1) * (t + 2) / 2) % 64,
{
    reveal(rotation_constant);
    assert((t + 1) * (t + 2) == t * t + 3 * t + 2) by (nonlinear_arith);
}

/// When the lanes are rotated.
proof fn lemma_walk_position(lane: int)
    requires
        1 <= lane < 25,
    ensures
        0 <= walk_position(lane) < 24,
        walk_lane(walk_position(lane)) == lane,
{
}

/// Where a bit of a rotated lane comes from.
pub open spec fn rho_source(i: int) -> int {
    64 * (i / 64) + (i % 64 + 64 - rotation_constant(i / 64)) % 64
}

/// Where a bit of a permuted lane comes from.
pub open spec fn pi_source(i: int) -> int {
    64 * source_lane(i / 64) + i % 64
}

/// The state with its lanes rotated.
pub fn rho<T: Copy>(state: &[T]) -> (r: Vec<T>)
    requires
        state@.len() == STATE_SIZE,
    ensures
        r@ == Seq::new(STATE_SIZE as nat, |i: int| state@[rho_source(i)]),
{
    let mut ret: Vec<T> = slice_to_vec(state);
    let mut x: usize = 1;
    let mut y: usize = 0;
    let mut t: usize = 0;
    proof {
        lemma_walk(0);
        assert forall|i: int| 0 <= i < 64 implies #[trigger] ret@[i] == state@[rho_source(i)] by {
            lemma_rotation_constant(0);
        }
    }
    while t < 24
        invariant
            t <= 24,
            state@.len() == STATE_SIZE,
            ret@.len() == STATE_SIZE,
            x < 5,
            y < 5,
            t < 24 ==> 5 * y + x == walk_lane(t as int),
            forall|i: int|
                0 <= i < STATE_SIZE && (i < 64 || walk_position(i / 64) < t)
                    ==> #[trigger] ret@[i] == state@[rho_source(i)],
        decreases 24 - t,
    {
        let ghost before = ret@;
        let ghost lane = walk_lane(t as int);
        proof {
            lemma_walk(t as int);
            lemma_rotation_constant(lane);
            assert((t + 1) * (t + 2) <= 24 * 25) by (nonlinear_arith)
                requires
                    0 <= t < 24,
            ;
        }
        let turn: usize = (t + 1) * (t + 2) / 2;
        let mut z: usize = 0;
        while z < Z
            invariant
                z <= 64,
                t < 24,
                x < 5,
                y < 5,
                state@.len() == STATE_SIZE,
                ret@.len() == STATE_SIZE,
                before.len() == STATE_SIZE,
                lane == 5 * y + x,
                1 <= lane < 25,
                turn <= 300,
                turn % 64 == rotation_constant(lane),
                forall|i: int|
                    0 <= i < STATE_SIZE && i / 64 != lane ==> #[trigger] ret@[i] == before[i],
                forall|i: int|
                    64 * lane <= i < 64 * lane + z ==> #[trigger] ret@[i] == state@[rho_source(i)],
            decreases 64 - z,
        {
            let new_z: usize = (1000 * Z + z - turn) % Z;
            let from: usize = from_xyz(x, y, new_z);
            let to: usize = from_xyz(x, y, z);
            proof {
                assert(to / 64 == lane && to % 64 == z);
                assert(from == rho_source(to as int));
            }
            ret.set(to, state[from]);
            z = z + 1;
        }
        proof {
            assert forall|i: int|
                0 <= i < STATE_SIZE && (i < 64 || walk_position(i / 64) < t + 1)
                    implies #[trigger] ret@[i] == state@[rho_source(i)] by {
                if i / 64 != lane {
                    assert(ret@[i] == before[i]);
                    if i >= 64 {
                        lemma_walk_position(i / 64);
                    }
                }
            }
            if t < 23 {
                lemma_walk(t + 1);
            }
        }
        let next_y: usize = (2 * x + 3 * y) % Y;
        x = y;
        y = next_y;
        t = t + 1;
    }
    proof {
        assert forall|i: int| 0 <= i < STATE_SIZE implies #[trigger] ret@[i]
            == state@[rho_source(i)] by {
            if i >= 64 {
                lemma_walk_position(i / 64);
            }
        }
        assert(ret@ =~= Seq::new(STATE_SIZE as nat, |i: int| state@[rho_source(i)]));
    }
    ret
}

/// The state with its lanes permuted.
pub fn pi<T: Copy>(state: &[T]) -> (r: Vec<T>)
    requires
        state@.len() == STATE_SIZE,
    ensures
        r@ == Seq::new(STATE_SIZE as nat, |i: int| state@[pi_source(i)]),
{
    let mut ret: Vec<T> = Vec::with_capacity(STATE_SIZE);
    let mut i: usize = 0;
    while i < STATE_SIZE
        invariant
            i <= STATE_SIZE,
            state@.len() == STATE_SIZE,
            ret@.len() == i,
            forall|k: int| 0 <= k < i ==> #[trigger] ret@[k] == state@[pi_source(k)],
        decreases STATE_SIZE - i,
    {
        let (x, y, z) = to_xyz(i);
        ret.push(state[from_xyz((x + 3 * y) % X, x, z)]);
        i = i + 1;
    }
    assert(ret@ =~= Seq::new(STATE_SIZE as nat, |i: int| state@[pi_source(i)]));
    ret
}

/// Where a bit comes from in the rotation and the permutation of the lanes.
pub open spec fn rho_pi_source(i: int) -> int {
    rho_source(pi_source(i))
}

/// Where the rotation and the permutation of the lanes move a bit.
pub open spec fn rho_pi_target(i: int) -> int {
    64 * target_lane(i / 64) + (i % 64 + rotation_constant(i / 64)) % 64
}

/// The rotation and the permutation of the lanes move each bit to a place of its own.
#[verifier::spinoff_prover]
pub proof fn lemma_rho_pi(i: int)
    requires
        0 <= i < STATE_SIZE,
    ensures
        0 <= rho_pi_source(i) < STATE_SIZE,
        0 <= rho_pi_target(i) < STATE_SIZE,
        rho_pi_source(rho_pi_target(i)) == i,
        rho_pi_target(rho_pi_source(i)) == i,
        rho_pi_source(i) == 64 * source_lane(i / 64) + (i % 64 + 64 - rotation_constant(
            source_lane(i / 64),
        )) % 64,
{
    let (lane, z) = (i / 64, i % 64);
    let (from, to) = (source_lane(lane), target_lane(lane));
    let (c, d) = (rotation_constant(lane) as int, rotation_constant(from) as int);
    lemma_lanes(lane);
    lemma_rotation_constant(lane);
    lemma_rotation_constant(from);
    lemma_rotate_back(z, c);
    lemma_rotate_back(z, d);
    lemma_lane_bit(from, z);
    lemma_lane_bit(from, (z + 64 - d) % 64);
    lemma_lane_bit(to, (z + c) % 64);
    lemma_lane_bit(lane, (z + c) % 64);
    assert(pi_source(i) == 64 * from + z);
    assert(rho_pi_source(i) == 64 * from + (z + 64 - d) % 64);
    assert(rho_pi_target(i) == 64 * to + (z + c) % 64);
    assert(pi_source(rho_pi_target(i)) == 64 * lane + (z + c) % 64);
}

proof fn lemma_rotate_back(z: int, c: int)
    requires
        0 <= z < 64,
        0 <= c < 64,
    ensures
        0 <= (z + c) % 64 < 64,
        0 <= (z + 64 - c) % 64 < 64,
        ((z + c) % 64 + 64 - c) % 64 == z,
        ((z + 64 - c) % 64 + c) % 64 == z,
{
}

proof fn lemma_lane_bit(lane: int, z: int)
    requires
        0 <= z < 64,
    ensures
        (64 * lane + z) / 64 == lane,
        (64 * lane + z) % 64 == z,
{
}

/// The rotation and the permutation of the lanes in one.
pub fn rho_and_pi_permutation() -> (r: Vec<usize>)
    ensures
        r@ == Seq::new(STATE_SIZE as nat, |i: int| rho_pi_source(i) as usize),
{
    let mut perm: Vec<usize> = Vec::with_capacity(STATE_SIZE);
    let mut i: usize = 0;
    while i < STATE_SIZE
        invariant
            i <= STATE_SIZE,
            perm@.len() == i,
            forall|k: int| 0 <= k < i ==> #[trigger] perm@[k] == k,
        decreases STATE_SIZE - i,
    {
        perm.push(i);
        i = i + 1;
    }
    let rotated = rho(perm.as_slice());
    let r = pi(rotated.as_slice());
    proof {
        assert forall|k: int| 0 <= k < STATE_SIZE implies #[trigger] r@[k] == rho_pi_source(k) by {
            lemma_rho_pi(k);
            lemma_lanes(k / 64);
        }
        assert(r@ =~= Seq::new(STATE_SIZE as nat, |i: int| rho_pi_source(i) as usize));
    }
    r
}

} // verus!
