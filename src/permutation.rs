//! The Keccak-f[1600] permutation, stated bit by bit as in FIPS 202: the
//! reference that the trace is proved against.
use vstd::prelude::*;

verus! {

/// Number of rounds in a Keccak permutation.
pub const NUM_ROUNDS: usize = 24;

/// Number of 64-bit lanes in the Keccak state.
pub const NUM_INPUTS: usize = 25;

/// The round constant of each round.
pub open spec fn rc_spec(round: int) -> u64 {
    if round == 0 { 0x0000000000000001u64 }
    else if round == 1 { 0x0000000000008082u64 }
    else if round == 2 { 0x800000000000808Au64 }
    else if round == 3 { 0x8000000080008000u64 }
    else if round == 4 { 0x000000000000808Bu64 }
    else if round == 5 { 0x0000000080000001u64 }
    else if round == 6 { 0x8000000080008081u64 }
    else if round == 7 { 0x8000000000008009u64 }
    else if round == 8 { 0x000000000000008Au64 }
    else if round == 9 { 0x0000000000000088u64 }
    else if round == 10 { 0x0000000080008009u64 }
    else if round == 11 { 0x000000008000000Au64 }
    else if round == 12 { 0x000000008000808Bu64 }
    else if round == 13 { 0x800000000000008Bu64 }
    else if round == 14 { 0x8000000000008089u64 }
    else if round == 15 { 0x8000000000008003u64 }
    else if round == 16 { 0x8000000000008002u64 }
    else if round == 17 { 0x8000000000000080u64 }
    else if round == 18 { 0x000000000000800Au64 }
    else if round == 19 { 0x800000008000000Au64 }
    else if round == 20 { 0x8000000080008081u64 }
    else if round == 21 { 0x8000000000008080u64 }
    else if round == 22 { 0x0000000080000001u64 }
    else { 0x8000000080008008u64 }
}

/// The round constant of `round`.
pub fn rc_value(round: usize) -> (r: u64)
    requires
        round < NUM_ROUNDS,
    ensures
        r == rc_spec(round as int),
{
    if round == 0 { 0x0000000000000001u64 }
    else if round == 1 { 0x0000000000008082u64 }
    else if round == 2 { 0x800000000000808Au64 }
    else if round == 3 { 0x8000000080008000u64 }
    else if round == 4 { 0x000000000000808Bu64 }
    else if round == 5 { 0x0000000080000001u64 }
    else if round == 6 { 0x8000000080008081u64 }
    else if round == 7 { 0x8000000000008009u64 }
    else if round == 8 { 0x000000000000008Au64 }
    else if round == 9 { 0x0000000000000088u64 }
    else if round == 10 { 0x0000000080008009u64 }
    else if round == 11 { 0x000000008000000Au64 }
    else if round == 12 { 0x000000008000808Bu64 }
    else if round == 13 { 0x800000000000008Bu64 }
    else if round == 14 { 0x8000000000008089u64 }
    else if round == 15 { 0x8000000000008003u64 }
    else if round == 16 { 0x8000000000008002u64 }
    else if round == 17 { 0x8000000000000080u64 }
    else if round == 18 { 0x000000000000800Au64 }
    else if round == 19 { 0x800000008000000Au64 }
    else if round == 20 { 0x8000000080008081u64 }
    else if round == 21 { 0x8000000000008080u64 }
    else if round == 22 { 0x0000000080000001u64 }
    else { 0x8000000080008008u64 }
}

/// Bit `z` of a 64-bit word.
pub open spec fn lane_bit(v: u64, z: int) -> bool {
    (v >> (z as u64)) & 1 == 1
}

/// Bit `i` of the round constant of `round`.
pub open spec fn rc_bit(round: int, i: int) -> bool {
    lane_bit(rc_spec(round), i)
}

/// Bit `i` of the round constant of `round`, as 0 or 1.
pub fn rc_value_bit(round: usize, i: usize) -> (r: u64)
    requires
        round < NUM_ROUNDS,
        i < 64,
    ensures
        r == (if rc_bit(round as int, i as int) { 1u64 } else { 0u64 }),
{
    let v = rc_value(round);
    let b = (v >> (i as u64)) & 1;
    assert(b == 0 || b == 1) by (bit_vector)
        requires
            b == (v >> (i as u64)) & 1,
    ;
    b
}

/// The rotation offset of lane `(x, y)` in the rho step.
pub open spec fn rho_spec(x: int, y: int) -> int {
    let i = 5 * x + y;
    if i == 0 { 0 } else if i == 1 { 36 } else if i == 2 { 3 } else if i == 3 { 41 } else if i == 4 { 18 }
    else if i == 5 { 1 } else if i == 6 { 44 } else if i == 7 { 10 } else if i == 8 { 45 } else if i == 9 { 2 }
    else if i == 10 { 62 } else if i == 11 { 6 } else if i == 12 { 43 } else if i == 13 { 15 } else if i == 14 { 61 }
    else if i == 15 { 28 } else if i == 16 { 55 } else if i == 17 { 25 } else if i == 18 { 21 } else if i == 19 { 56 }
    else if i == 20 { 27 } else if i == 21 { 20 } else if i == 22 { 39 } else if i == 23 { 8 } else { 14 }
}

/// The rotation offset of lane `(x, y)` in the rho step.
pub fn rho_offset(x: usize, y: usize) -> (r: usize)
    requires
        x < 5,
        y < 5,
    ensures
        r == rho_spec(x as int, y as int),
        r < 64,
{
    let i = 5 * x + y;
    if i == 0 { 0 } else if i == 1 { 36 } else if i == 2 { 3 } else if i == 3 { 41 } else if i == 4 { 18 }
    else if i == 5 { 1 } else if i == 6 { 44 } else if i == 7 { 10 } else if i == 8 { 45 } else if i == 9 { 2 }
    else if i == 10 { 62 } else if i == 11 { 6 } else if i == 12 { 43 } else if i == 13 { 15 } else if i == 14 { 61 }
    else if i == 15 { 28 } else if i == 16 { 55 } else if i == 17 { 25 } else if i == 18 { 21 } else if i == 19 { 56 }
    else if i == 20 { 27 } else if i == 21 { 20 } else if i == 22 { 39 } else if i == 23 { 8 } else { 14 }
}

/// A Keccak state as a function of `(x, y, z)`, for `x, y` in `0..5` and `z` in `0..64`.
pub type State = spec_fn(int, int, int) -> bool;

pub open spec fn xor(a: bool, b: bool) -> bool {
    a != b
}

/// The state whose lane `(x, y)` is `lanes[5 * y + x]`.
pub open spec fn state_of_lanes(lanes: Seq<u64>) -> State {
    |x: int, y: int, z: int| lane_bit(lanes[5 * y + x], z)
}

/// Column parity, `C[x, z]`.
pub open spec fn theta_c(s: State, x: int, z: int) -> bool {
    xor(xor(xor(xor(s(x, 0, z), s(x, 1, z)), s(x, 2, z)), s(x, 3, z)), s(x, 4, z))
}

/// The theta step: `A[x, y, z] ^ C[x - 1, z] ^ C[x + 1, z - 1]`.
pub open spec fn theta(s: State, x: int, y: int, z: int) -> bool {
    xor(xor(s(x, y, z), theta_c(s, (x + 4) % 5, z)), theta_c(s, (x + 1) % 5, (z + 63) % 64))
}

/// The rho and pi steps applied after theta: lane `(x, y)` is lane
/// `((x + 3y) % 5, x)` of the theta output, rotated left by its offset.
pub open spec fn rho_pi(s: State, x: int, y: int, z: int) -> bool {
    let a = (x + 3 * y) % 5;
    theta(s, a, x, (z + 64 - rho_spec(a, x)) % 64)
}

/// The chi step: `B[x, y] ^ (!B[x + 1, y] & B[x + 2, y])`.
pub open spec fn chi(s: State, x: int, y: int, z: int) -> bool {
    xor(rho_pi(s, x, y, z), !rho_pi(s, (x + 1) % 5, y, z) && rho_pi(s, (x + 2) % 5, y, z))
}

/// The iota step: lane `(0, 0)` is xored with the round constant.
pub open spec fn iota(s: State, round: int, x: int, y: int, z: int) -> bool {
    if x == 0 && y == 0 {
        xor(chi(s, x, y, z), rc_bit(round, z))
    } else {
        chi(s, x, y, z)
    }
}

/// One round of Keccak-f.
pub open spec fn keccak_round(s: State, round: int) -> State {
    |x: int, y: int, z: int| iota(s, round, x, y, z)
}

/// The first `n` rounds of Keccak-f.
pub open spec fn rounds(s: State, n: nat) -> State
    decreases n,
{
    if n == 0 {
        s
    } else {
        keccak_round(rounds(s, (n - 1) as nat), n - 1)
    }
}

/// The Keccak-f[1600] permutation.
pub open spec fn keccak_f(s: State) -> State {
    rounds(s, NUM_ROUNDS as nat)
}

/// Two states that agree on every position.
pub open spec fn same_state(s: State, t: State) -> bool {
    forall|x: int, y: int, z: int| 0 <= x < 5 && 0 <= y < 5 && 0 <= z < 64 ==> #[trigger] s(x, y, z) == t(x, y, z)
}

/// A round depends only on the positions of the state.
pub proof fn lemma_round_congruent(s: State, t: State, round: int)
    requires
        same_state(s, t),
    ensures
        same_state(keccak_round(s, round), keccak_round(t, round)),
{
    assert forall|x: int, z: int| 0 <= x < 5 && 0 <= z < 64 implies theta_c(s, x, z) == theta_c(t, x, z) by {
        assert(s(x, 0, z) == t(x, 0, z));
        assert(s(x, 1, z) == t(x, 1, z));
        assert(s(x, 2, z) == t(x, 2, z));
        assert(s(x, 3, z) == t(x, 3, z));
        assert(s(x, 4, z) == t(x, 4, z));
    }
    assert forall|x: int, y: int, z: int| 0 <= x < 5 && 0 <= y < 5 && 0 <= z < 64 implies theta(s, x, y, z)
        == theta(t, x, y, z) by {
        assert(s(x, y, z) == t(x, y, z));
    }
    assert forall|x: int, y: int, z: int| 0 <= x < 5 && 0 <= y < 5 && 0 <= z < 64 implies rho_pi(s, x, y, z)
        == rho_pi(t, x, y, z) by {
        let a = (x + 3 * y) % 5;
        assert(0 <= rho_spec(a, x) < 64);
        assert(theta(s, a, x, (z + 64 - rho_spec(a, x)) % 64) == theta(t, a, x, (z + 64 - rho_spec(a, x)) % 64));
    }
}

} // verus!
