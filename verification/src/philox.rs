//! Counter-based pseudo-random number generation: ten rounds of
//! multiply-high/low mixing over a four-word counter, keyed by a two-word
//! seed. The generator is stateless: the output is a mathematical function of
//! the key and the counter alone, which is what makes renders reproducible
//! regardless of thread scheduling.

use vstd::prelude::*;

verus! {

/// High 32 bits of the 64-bit product of two 32-bit words.
pub open spec fn mulhilo_hi(a: u32, b: u32) -> u32 {
    (((a as nat) * (b as nat)) / 0x1_0000_0000) as u32
}

/// Low 32 bits of the 64-bit product of two 32-bit words.
pub open spec fn mulhilo_lo(a: u32, b: u32) -> u32 {
    (((a as nat) * (b as nat)) % 0x1_0000_0000) as u32
}

/// Addition modulo 2^32.
pub open spec fn wrap_add32(a: u32, b: u32) -> u32 {
    (((a as nat) + (b as nat)) % 0x1_0000_0000) as u32
}

/// Key schedule: each round bumps the two key words by fixed constants.
pub open spec fn round_key(key: Seq<u32>) -> Seq<u32> {
    seq![wrap_add32(key[0], 0x9E3779B9), wrap_add32(key[1], 0xBB67AE85)]
}

/// One mixing round applied to the counter, using the current key.
pub open spec fn round_ctr(key: Seq<u32>, ctr: Seq<u32>) -> Seq<u32> {
    seq![
        mulhilo_hi(ctr[2], 0xD2511F53) ^ key[1] ^ ctr[3],
        mulhilo_lo(ctr[0], 0xCD9E8D57),
        mulhilo_hi(ctr[0], 0xCD9E8D57) ^ key[0] ^ ctr[1],
        mulhilo_lo(ctr[2], 0xD2511F53),
    ]
}

/// Key and counter after `n` rounds.
pub open spec fn philox_rounds(key: Seq<u32>, ctr: Seq<u32>, n: nat) -> (Seq<u32>, Seq<u32>)
    decreases n,
{
    if n == 0 {
        (key, ctr)
    } else {
        let prev = philox_rounds(key, ctr, (n - 1) as nat);
        (round_key(prev.0), round_ctr(prev.0, prev.1))
    }
}

/// The generator's output: the counter after ten rounds. A pure function of
/// the key and counter, so identical inputs always give identical outputs.
pub open spec fn philox_gen(key: Seq<u32>, ctr: Seq<u32>) -> Seq<u32> {
    philox_rounds(key, ctr, 10).1
}

#[derive(Debug, Default, Clone, Copy)]
pub struct Philox4x32_10(pub [u32; 2]);

impl Philox4x32_10 {
    /// Runs the counter through ten mixing rounds under this key.
    pub fn gen(&self, ctr: [u32; 4]) -> (out: [u32; 4])
        ensures
            out@ == philox_gen(self.0@, ctr@),
    {
        let mut key = self.0;
        let mut ctr = ctr;
        let ghost key0 = key@;
        let ghost ctr0 = ctr@;
        for i in 0..10u32
            invariant
                (key@, ctr@) == philox_rounds(key0, ctr0, i as nat),
        {
            round(&mut key, &mut ctr);
        }
        ctr
    }
}

/// One round: mix the counter words, then advance the key schedule.
fn round(key: &mut [u32; 2], ctr: &mut [u32; 4])
    ensures
        final(key)@ == round_key(old(key)@),
        final(ctr)@ == round_ctr(old(key)@, old(ctr)@),
{
    let (r0, l1) = mulhilo(ctr[2], 0xD2511F53);
    let (r1, l0) = mulhilo(ctr[0], 0xCD9E8D57);

    let ctr1 = ctr[1];
    let ctr3 = ctr[3];

    *ctr = [r0 ^ key[1] ^ ctr3, l0, r1 ^ key[0] ^ ctr1, l1];
    *key = [key[0].wrapping_add(0x9E3779B9), key[1].wrapping_add(0xBB67AE85)];

    proof {
        assert(final(ctr)@ =~= round_ctr(old(key)@, old(ctr)@));
        assert(final(key)@ =~= round_key(old(key)@));
    }
}

/// Splits the 64-bit product of two 32-bit words into its high and low halves.
fn mulhilo(a: u32, b: u32) -> (r: (u32, u32))
    ensures
        r.0 == mulhilo_hi(a, b),
        r.1 == mulhilo_lo(a, b),
{
    proof {
        assert((a as nat) * (b as nat) <= 0xFFFF_FFFF * 0xFFFF_FFFF) by (nonlinear_arith)
            requires a <= 0xFFFF_FFFFu32 && b <= 0xFFFF_FFFFu32;
    }
    let p = (a as u64) * (b as u64);
    proof {
        vstd::bits::lemma_u64_shr_is_div(p, 32);
        vstd::arithmetic::power2::lemma2_to64();
    }
    let hi = (p >> 32) as u32;
    let lo = (p % 0x1_0000_0000) as u32;
    (hi, lo)
}

/// Two runs of the generator on the same key and counter agree: the output is
/// fixed by the inputs alone.
pub proof fn lemma_gen_deterministic(g1: Philox4x32_10, g2: Philox4x32_10, ctr: Seq<u32>)
    requires
        g1.0@ == g2.0@,
    ensures
        philox_gen(g1.0@, ctr) == philox_gen(g2.0@, ctr),
{
}

/// Multiplying by `m` modulo 2^32 is undone by multiplying by its inverse.
proof fn lemma_lo_cancel(x: u32, m: u32, minv: u32)
    requires
        ((m as int) * (minv as int)) % 0x1_0000_0000 == 1,
    ensures
        ((mulhilo_lo(x, m) as int) * (minv as int)) % 0x1_0000_0000 == x as int,
{
    let n = 0x1_0000_0000int;
    vstd::arithmetic::div_mod::lemma_mul_mod_noop_left((x as int) * (m as int), minv as int, n);
    vstd::arithmetic::mul::lemma_mul_is_associative(x as int, m as int, minv as int);
    vstd::arithmetic::div_mod::lemma_mul_mod_noop_right(x as int, (m as int) * (minv as int), n);
    vstd::arithmetic::div_mod::lemma_small_mod(x as nat, 0x1_0000_0000nat);
}

/// The low product halves pin the factor: the round's multipliers are odd,
/// so multiplication by them permutes the 32-bit words.
proof fn lemma_lo_injective(a: u32, b: u32, m: u32, minv: u32)
    requires
        ((m as int) * (minv as int)) % 0x1_0000_0000 == 1,
        mulhilo_lo(a, m) == mulhilo_lo(b, m),
    ensures
        a == b,
{
    lemma_lo_cancel(a, m, minv);
    lemma_lo_cancel(b, m, minv);
}

/// One round is a bijection of the counter space: equal round outputs under
/// one key force equal counters.
proof fn lemma_round_ctr_injective(key: Seq<u32>, c1: Seq<u32>, c2: Seq<u32>)
    requires
        c1.len() == 4,
        c2.len() == 4,
        round_ctr(key, c1) == round_ctr(key, c2),
    ensures
        c1 == c2,
{
    assert((0xD2511F53int * 0x991A7CDB) % 0x1_0000_0000 == 1);
    assert((0xCD9E8D57int * 0x6D7CAE67) % 0x1_0000_0000 == 1);
    assert(round_ctr(key, c1)[1] == round_ctr(key, c2)[1]);
    lemma_lo_injective(c1[0], c2[0], 0xCD9E8D57, 0x6D7CAE67);
    assert(round_ctr(key, c1)[3] == round_ctr(key, c2)[3]);
    lemma_lo_injective(c1[2], c2[2], 0xD2511F53, 0x991A7CDB);
    let h2 = mulhilo_hi(c1[0], 0xCD9E8D57);
    let k0 = key[0];
    let x1 = c1[1];
    let x2 = c2[1];
    assert(round_ctr(key, c1)[2] == round_ctr(key, c2)[2]);
    assert(h2 ^ k0 ^ x1 == h2 ^ k0 ^ x2 ==> x1 == x2) by (bit_vector);
    let h0 = mulhilo_hi(c1[2], 0xD2511F53);
    let k1 = key[1];
    let y1 = c1[3];
    let y2 = c2[3];
    assert(round_ctr(key, c1)[0] == round_ctr(key, c2)[0]);
    assert(h0 ^ k1 ^ y1 == h0 ^ k1 ^ y2 ==> y1 == y2) by (bit_vector);
    assert(c1 =~= c2);
}

/// The key schedule and the shapes of the state do not depend on the
/// counter.
proof fn lemma_rounds_shape(key: Seq<u32>, c1: Seq<u32>, c2: Seq<u32>, n: nat)
    ensures
        philox_rounds(key, c1, n).0 == philox_rounds(key, c2, n).0,
        philox_rounds(key, c1, n).1.len() == (if n == 0 {
            c1.len()
        } else {
            4
        }),
    decreases n,
{
    if n > 0 {
        lemma_rounds_shape(key, c1, c2, (n - 1) as nat);
    }
}

/// Distinct counters give distinct outputs under any key: the generator has
/// no collisions anywhere in the counter space, adjacent counters included.
pub proof fn lemma_gen_counter_injective(key: Seq<u32>, c1: Seq<u32>, c2: Seq<u32>)
    requires
        c1.len() == 4,
        c2.len() == 4,
        philox_gen(key, c1) == philox_gen(key, c2),
    ensures
        c1 == c2,
{
    lemma_rounds_injective(key, c1, c2, 10);
}

/// Injectivity of the counter through any number of rounds.
proof fn lemma_rounds_injective(key: Seq<u32>, c1: Seq<u32>, c2: Seq<u32>, n: nat)
    requires
        c1.len() == 4,
        c2.len() == 4,
        philox_rounds(key, c1, n).1 == philox_rounds(key, c2, n).1,
    ensures
        c1 == c2,
    decreases n,
{
    if n == 0 {
    } else {
        let p1 = philox_rounds(key, c1, (n - 1) as nat);
        let p2 = philox_rounds(key, c2, (n - 1) as nat);
        lemma_rounds_shape(key, c1, c2, (n - 1) as nat);
        lemma_round_ctr_injective(p1.0, p1.1, p2.1);
        lemma_rounds_injective(key, c1, c2, (n - 1) as nat);
    }
}

} // verus!
