//! The rounds of the Keccak permutation on 25 lanes. The lane in row `y` and column `x` has the
//! index `5 * y + x`.
use vstd::prelude::*;

use crate::precompiles::words::{rotate_left, rotl};

verus! {

/// The number of rounds.
pub const ROUNDS: usize = 24;

/// The constant of a round.
#[verifier::opaque]
pub open spec fn round_constant(round: int) -> u64 {
    if round == 0 {
        0x1
    } else if round == 1 {
        0x8082
    } else if round == 2 {
        0x800000000000808a
    } else if round == 3 {
        0x8000000080008000
    } else if round == 4 {
        0x808b
    } else if round == 5 {
        0x80000001
    } else if round == 6 {
        0x8000000080008081
    } else if round == 7 {
        0x8000000000008009
    } else if round == 8 {
        0x8a
    } else if round == 9 {
        0x88
    } else if round == 10 {
        0x80008009
    } else if round == 11 {
        0x8000000a
    } else if round == 12 {
        0x8000808b
    } else if round == 13 {
        0x800000000000008b
    } else if round == 14 {
        0x8000000000008089
    } else if round == 15 {
        0x8000000000008003
    } else if round == 16 {
        0x8000000000008002
    } else if round == 17 {
        0x8000000000000080
    } else if round == 18 {
        0x800a
    } else if round == 19 {
        0x800000008000000a
    } else if round == 20 {
        0x8000000080008081
    } else if round == 21 {
        0x8000000000008080
    } else if round == 22 {
        0x80000001
    } else {
        0x8000000080008008
    }
}

/// The constant of a round.
pub fn rc(round: usize) -> (r: u64)
    requires
        round < ROUNDS,
    ensures
        r == round_constant(round as int),
{
    proof {
        reveal(round_constant);
    }
    if round == 0 {
        0x1
    } else if round == 1 {
        0x8082
    } else if round == 2 {
        0x800000000000808a
    } else if round == 3 {
        0x8000000080008000
    } else if round == 4 {
        0x808b
    } else if round == 5 {
        0x80000001
    } else if round == 6 {
        0x8000000080008081
    } else if round == 7 {
        0x8000000000008009
    } else if round == 8 {
        0x8a
    } else if round == 9 {
        0x88
    } else if round == 10 {
        0x80008009
    } else if round == 11 {
        0x8000000a
    } else if round == 12 {
        0x8000808b
    } else if round == 13 {
        0x800000000000008b
    } else if round == 14 {
        0x8000000000008089
    } else if round == 15 {
        0x8000000000008003
    } else if round == 16 {
        0x8000000000008002
    } else if round == 17 {
        0x8000000000000080
    } else if round == 18 {
        0x800a
    } else if round == 19 {
        0x800000008000000a
    } else if round == 20 {
        0x8000000080008081
    } else if round == 21 {
        0x8000000000008080
    } else if round == 22 {
        0x80000001
    } else {
        0x8000000080008008
    }
}

/// By how much a lane is rotated.
#[verifier::opaque]
pub open spec fn rotation_constant(lane: int) -> nat {
    if lane == 0 {
        0
    } else if lane == 1 {
        1
    } else if lane == 2 {
        62
    } else if lane == 3 {
        28
    } else if lane == 4 {
        27
    } else if lane == 5 {
        36
    } else if lane == 6 {
        44
    } else if lane == 7 {
        6
    } else if lane == 8 {
        55
    } else if lane == 9 {
        20
    } else if lane == 10 {
        3
    } else if lane == 11 {
        10
    } else if lane == 12 {
        43
    } else if lane == 13 {
        25
    } else if lane == 14 {
        39
    } else if lane == 15 {
        41
    } else if lane == 16 {
        45
    } else if lane == 17 {
        15
    } else if lane == 18 {
        21
    } else if lane == 19 {
        8
    } else if lane == 20 {
        18
    } else if lane == 21 {
        2
    } else if lane == 22 {
        61
    } else if lane == 23 {
        56
    } else {
        14
    }
}

/// By how much a lane is rotated.
pub fn rotation(lane: usize) -> (r: usize)
    requires
        lane < 25,
    ensures
        r == rotation_constant(lane as int),
        r < 64,
        r != 16,
        r != 32,
        r != 48,
        r == 0 <==> lane == 0,
{
    proof {
        reveal(rotation_constant);
    }
    if lane == 0 {
        0
    } else if lane == 1 {
        1
    } else if lane == 2 {
        62
    } else if lane == 3 {
        28
    } else if lane == 4 {
        27
    } else if lane == 5 {
        36
    } else if lane == 6 {
        44
    } else if lane == 7 {
        6
    } else if lane == 8 {
        55
    } else if lane == 9 {
        20
    } else if lane == 10 {
        3
    } else if lane == 11 {
        10
    } else if lane == 12 {
        43
    } else if lane == 13 {
        25
    } else if lane == 14 {
        39
    } else if lane == 15 {
        41
    } else if lane == 16 {
        45
    } else if lane == 17 {
        15
    } else if lane == 18 {
        21
    } else if lane == 19 {
        8
    } else if lane == 20 {
        18
    } else if lane == 21 {
        2
    } else if lane == 22 {
        61
    } else if lane == 23 {
        56
    } else {
        14
    }
}

/// The rotations of the lanes.
pub proof fn lemma_rotation_constant(lane: int)
    requires
        0 <= lane < 25,
    ensures
        0 <= rotation_constant(lane) < 64,
        rotation_constant(lane) != 16,
        rotation_constant(lane) != 32,
        rotation_constant(lane) != 48,
        rotation_constant(lane) == 0 <==> lane == 0,
{
    reveal(rotation_constant);
}

/// The parity of the first rows of a column.
pub open spec fn c_aux(st: Seq<u64>, x: int, y: int) -> u64
    decreases y,
{
    if y <= 0 {
        st[x]
    } else {
        c_aux(st, x, y - 1) ^ st[5 * y + x]
    }
}

/// The parity of a column.
pub open spec fn parity(st: Seq<u64>, x: int) -> u64 {
    c_aux(st, x, 4)
}

/// What is added to a column.
pub open spec fn d(st: Seq<u64>, x: int) -> u64 {
    parity(st, (x + 4) % 5) ^ rotl(parity(st, (x + 1) % 5), 1)
}

/// The lanes after the first step.
pub open spec fn theta(st: Seq<u64>, lane: int) -> u64 {
    st[lane] ^ d(st, lane % 5)
}

/// Where a lane comes from in the permutation of lanes.
pub open spec fn source_lane(lane: int) -> int {
    let (y, x) = (lane / 5, lane % 5);
    5 * x + (3 * y + x) % 5
}

/// Where the permutation moves a lane.
pub open spec fn target_lane(lane: int) -> int {
    let (y, x) = (lane / 5, lane % 5);
    5 * ((2 * x + 3 * y) % 5) + y
}

/// The lanes after they are rotated and permuted.
#[verifier::opaque]
pub open spec fn rhopi(st: Seq<u64>, lane: int) -> u64 {
    rotl(theta(st, source_lane(lane)), rotation_constant(source_lane(lane)))
}

/// The lane `by` columns further in the same row.
pub open spec fn beside(lane: int, by: int) -> int {
    5 * (lane / 5) + (lane % 5 + by) % 5
}

pub open spec fn nonlinear(st: Seq<u64>, lane: int) -> u64 {
    !rhopi(st, beside(lane, 1)) & rhopi(st, beside(lane, 2))
}

pub open spec fn chi(st: Seq<u64>, lane: int) -> u64 {
    rhopi(st, lane) ^ nonlinear(st, lane)
}

pub open spec fn iota(st: Seq<u64>, constant: u64, lane: int) -> u64 {
    if lane == 0 {
        chi(st, 0) ^ constant
    } else {
        chi(st, lane)
    }
}

/// The lanes after a round.
pub open spec fn keccak_round(st: Seq<u64>, constant: u64) -> Seq<u64> {
    Seq::new(25, |lane: int| iota(st, constant, lane))
}

/// The lanes after the rounds with the given constants.
pub open spec fn keccak_rounds(st: Seq<u64>, constants: Seq<u64>) -> Seq<u64>
    decreases constants.len(),
{
    if constants.len() == 0 {
        st
    } else {
        keccak_round(keccak_rounds(st, constants.drop_last()), constants.last())
    }
}

/// The constants of the first rounds.
pub open spec fn first_constants(n: int) -> Seq<u64> {
    Seq::new(n as nat, |r: int| round_constant(r))
}

/// The permutation of lanes and its inverse.
pub proof fn lemma_lanes(lane: int)
    requires
        0 <= lane < 25,
    ensures
        0 <= source_lane(lane) < 25,
        0 <= target_lane(lane) < 25,
        source_lane(target_lane(lane)) == lane,
        target_lane(source_lane(lane)) == lane,
{
}

/// The steps of a round.
#[derive(Debug)]
pub struct Round {
    pub c_aux: Vec<u64>,
    pub c_rot: Vec<u64>,
    pub d: Vec<u64>,
    pub theta: Vec<u64>,
    pub rhopi: Vec<u64>,
    pub nonlinear: Vec<u64>,
    pub chi: Vec<u64>,
    pub iota: Vec<u64>,
}

impl Round {
    /// The lanes of each step.
    pub open spec fn of(&self, st: Seq<u64>, constant: u64) -> bool {
        &&& self.c_aux@ == Seq::new(25, |i: int| c_aux(st, i / 5, i % 5))
        &&& self.c_rot@ == Seq::new(5, |x: int| rotl(parity(st, x), 1))
        &&& self.d@ == Seq::new(5, |x: int| d(st, x))
        &&& self.theta@ == Seq::new(25, |i: int| theta(st, i))
        &&& self.rhopi@ == Seq::new(25, |i: int| rhopi(st, i))
        &&& self.nonlinear@ == Seq::new(25, |i: int| nonlinear(st, i))
        &&& self.chi@ == Seq::new(25, |i: int| chi(st, i))
        &&& self.iota@ == keccak_round(st, constant)
    }

    /// Computes the steps of a round.
    pub fn compute(st: &Vec<u64>, constant: u64) -> (r: Round)
        requires
            st@.len() == 25,
        ensures
            r.of(st@, constant),
    {
        let parities = Self::parities(st);
        let mut rotated: Vec<u64> = Vec::with_capacity(5);
        let mut x: usize = 0;
        while x < 5
            invariant
                x <= 5,
                parities@ == Seq::new(25, |i: int| c_aux(st@, i / 5, i % 5)),
                rotated@ == Seq::new(x as nat, |x: int| rotl(parity(st@, x), 1)),
            decreases 5 - x,
        {
            assert((5 * x + 4) / 5 == x && (5 * x + 4) % 5 == 4);
            rotated.push(rotate_left(parities[5 * x + 4], 1));
            assert(rotated@ =~= Seq::new((x + 1) as nat, |x: int| rotl(parity(st@, x), 1)));
            x = x + 1;
        }
        let mut ds: Vec<u64> = Vec::with_capacity(5);
        let mut x: usize = 0;
        while x < 5
            invariant
                x <= 5,
                parities@ == Seq::new(25, |i: int| c_aux(st@, i / 5, i % 5)),
                rotated@ == Seq::new(5, |x: int| rotl(parity(st@, x), 1)),
                ds@ == Seq::new(x as nat, |x: int| d(st@, x)),
            decreases 5 - x,
        {
            let left: usize = (x + 4) % 5;
            assert((5 * left + 4) / 5 == left && (5 * left + 4) % 5 == 4);
            ds.push(parities[5 * left + 4] ^ rotated[(x + 1) % 5]);
            assert(ds@ =~= Seq::new((x + 1) as nat, |x: int| d(st@, x)));
            x = x + 1;
        }
        let mut thetas: Vec<u64> = Vec::with_capacity(25);
        let mut i: usize = 0;
        while i < 25
            invariant
                i <= 25,
                st@.len() == 25,
                ds@ == Seq::new(5, |x: int| d(st@, x)),
                thetas@ == Seq::new(i as nat, |i: int| theta(st@, i)),
            decreases 25 - i,
        {
            thetas.push(st[i] ^ ds[i % 5]);
            assert(thetas@ =~= Seq::new((i + 1) as nat, |i: int| theta(st@, i)));
            i = i + 1;
        }
        let mut rhopis: Vec<u64> = Vec::with_capacity(25);
        let mut i: usize = 0;
        while i < 25
            invariant
                i <= 25,
                thetas@ == Seq::new(25, |i: int| theta(st@, i)),
                rhopis@ == Seq::new(i as nat, |i: int| rhopi(st@, i)),
            decreases 25 - i,
        {
            let from: usize = 5 * (i % 5) + (3 * (i / 5) + i % 5) % 5;
            rhopis.push(rotate_left(thetas[from], rotation(from)));
            reveal(rhopi);
            assert(rhopis@ =~= Seq::new((i + 1) as nat, |i: int| rhopi(st@, i)));
            i = i + 1;
        }
        let mut nonlinears: Vec<u64> = Vec::with_capacity(25);
        let mut chis: Vec<u64> = Vec::with_capacity(25);
        let mut iotas: Vec<u64> = Vec::with_capacity(25);
        let mut i: usize = 0;
        while i < 25
            invariant
                i <= 25,
                rhopis@ == Seq::new(25, |i: int| rhopi(st@, i)),
                nonlinears@ == Seq::new(i as nat, |i: int| nonlinear(st@, i)),
                chis@ == Seq::new(i as nat, |i: int| chi(st@, i)),
                iotas@ == Seq::new(i as nat, |i: int| iota(st@, constant, i)),
            decreases 25 - i,
        {
            let row: usize = 5 * (i / 5);
            let n: u64 = !rhopis[row + (i % 5 + 1) % 5] & rhopis[row + (i % 5 + 2) % 5];
            let c: u64 = rhopis[i] ^ n;
            let out: u64 = if i == 0 {
                c ^ constant
            } else {
                c
            };
            nonlinears.push(n);
            chis.push(c);
            iotas.push(out);
            assert(nonlinears@ =~= Seq::new((i + 1) as nat, |i: int| nonlinear(st@, i)));
            assert(chis@ =~= Seq::new((i + 1) as nat, |i: int| chi(st@, i)));
            assert(iotas@ =~= Seq::new((i + 1) as nat, |i: int| iota(st@, constant, i)));
            i = i + 1;
        }
        Round {
            c_aux: parities,
            c_rot: rotated,
            d: ds,
            theta: thetas,
            rhopi: rhopis,
            nonlinear: nonlinears,
            chi: chis,
            iota: iotas,
        }
    }

    fn parities(st: &Vec<u64>) -> (r: Vec<u64>)
        requires
            st@.len() == 25,
        ensures
            r@ == Seq::new(25, |i: int| c_aux(st@, i / 5, i % 5)),
    {
        let mut r: Vec<u64> = Vec::with_capacity(25);
        let mut i: usize = 0;
        while i < 25
            invariant
                i <= 25,
                st@.len() == 25,
                r@ == Seq::new(i as nat, |i: int| c_aux(st@, i / 5, i % 5)),
            decreases 25 - i,
        {
            let (x, y): (usize, usize) = (i / 5, i % 5);
            if y == 0 {
                r.push(st[x]);
            } else {
                assert((i - 1) / 5 == x && (i - 1) % 5 == y - 1);
                r.push(r[i - 1] ^ st[5 * y + x]);
            }
            assert(r@ =~= Seq::new((i + 1) as nat, |i: int| c_aux(st@, i / 5, i % 5)));
            i = i + 1;
        }
        r
    }
}

} // verus!
