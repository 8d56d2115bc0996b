//! The seeded source a picture's noise is drawn from: a small xoshiro256**, so that a seed
//! reproduces a picture. What is drawn is whole numbers; making them normally distributed is
//! floating-point work and lives outside this library.

use vstd::prelude::*;

verus! {

/// A 64-bit product, what does not fit dropped.
pub open spec fn low_product(x: u64, y: u64) -> u64 {
    ((x as nat * y as nat) % 0x1_0000_0000_0000_0000) as u64
}

/// A 64-bit sum, what does not fit dropped.
pub open spec fn low_sum(x: u64, y: u64) -> u64 {
    ((x as int + y as int) % 0x1_0000_0000_0000_0000) as u64
}

/// The word SplitMix64 makes of a counter.
pub open spec fn mixed(z: u64) -> u64 {
    let a = low_product(z ^ (z >> 30), 0xBF58_476D_1CE4_E5B9);
    let b = low_product(a ^ (a >> 27), 0x94D0_49BB_1331_11EB);
    b ^ (b >> 31)
}

/// The counter after `n` steps from a seed.
pub open spec fn counter(seed: u64, n: int) -> u64
    decreases n,
{
    if n <= 0 { seed } else { low_sum(counter(seed, n - 1), 0x9E37_79B9_7F4A_7C15) }
}

/// The four words a seed spreads over.
pub open spec fn seeded_state(seed: u64) -> Seq<u64> {
    Seq::new(4, |i: int| mixed(counter(seed, i + 1)))
}

/// A word turned left.
pub open spec fn turned(x: u64, by: u64) -> u64 {
    (x << by) | (x >> ((64 - by) as u64))
}

/// What a state draws.
pub open spec fn drawn(s: Seq<u64>) -> u64 {
    low_product(turned(low_product(s[1], 5), 7), 9)
}

/// The state after a draw.
pub open spec fn stepped(s: Seq<u64>) -> Seq<u64> {
    let c = s[2] ^ s[0];
    let d = s[3] ^ s[1];
    seq![s[0] ^ d, s[1] ^ c, c ^ (s[1] << 17), turned(d, 45)]
}

/// A seeded sequence of numbers.
#[derive(Debug, Clone, PartialEq, Eq)]
pub struct Noise {
    state: [u64; 4],
}

impl View for Noise {
    type V = Seq<u64>;

    closed spec fn view(&self) -> Seq<u64> {
        self.state@
    }
}

impl Noise {
    /// Starts the sequence of a seed.
    pub fn seeded(seed: u64) -> (noise: Noise)
        ensures
            noise@ == seeded_state(seed),
    {
        let mut z: u64 = seed;
        let mut state: [u64; 4] = [0u64; 4];
        let mut i: usize = 0;
        while i < 4
            invariant
                i <= 4,
                state@.len() == 4,
                z == counter(seed, i as int),
                forall|k: int| 0 <= k < i ==> #[trigger] state@[k] == seeded_state(seed)[k],
            decreases 4 - i,
        {
            z = z.wrapping_add(0x9E37_79B9_7F4A_7C15);
            let a: u64 = (z ^ (z >> 30)).wrapping_mul(0xBF58_476D_1CE4_E5B9);
            let b: u64 = (a ^ (a >> 27)).wrapping_mul(0x94D0_49BB_1331_11EB);
            state[i] = b ^ (b >> 31);
            i = i + 1;
        }
        assert(state@ =~= seeded_state(seed));
        Noise { state }
    }

    /// The next number of the sequence.
    pub fn next_u64(&mut self) -> (n: u64)
        ensures
            n == drawn(old(self)@),
            final(self)@ == stepped(old(self)@),
    {
        let s0: u64 = self.state[0];
        let s1: u64 = self.state[1];
        let m: u64 = s1.wrapping_mul(5);
        let n: u64 = ((m << 7) | (m >> 57)).wrapping_mul(9);
        let c: u64 = self.state[2] ^ s0;
        let d: u64 = self.state[3] ^ s1;
        self.state = [s0 ^ d, s1 ^ c, c ^ (s1 << 17), (d << 45) | (d >> 19)];
        assert(self.state@ =~= stepped(old(self)@));
        n
    }

    /// The next fraction's numerator, of two to the fifty-third and one: never nought, so that
    /// its logarithm is finite.
    pub fn next_unit(&mut self) -> (numerator: u64)
        ensures
            numerator == drawn(old(self)@) / 2048 + 1,
            1 <= numerator <= 0x20_0000_0000_0000,
            final(self)@ == stepped(old(self)@),
    {
        let n: u64 = self.next_u64();
        n / 2048 + 1
    }
}

/// A seed's sequence never runs into the one state it could not leave: not all four of its words
/// are nought unless the words it was seeded with were.
pub proof fn law_a_draw_never_loses_the_state(s: Seq<u64>)
    requires
        s.len() == 4,
    ensures
        stepped(s) == seq![0u64, 0, 0, 0] ==> s == seq![0u64, 0, 0, 0],
{
    let (a, b, c, d) = (s[0], s[1], s[2], s[3]);
    let next = stepped(s);
    if next == seq![0u64, 0, 0, 0] {
        let e = c ^ a;
        let f = d ^ b;
        assert(next[0] == 0 && next[1] == 0 && next[2] == 0 && next[3] == 0);
        assert(a ^ f == 0 && b ^ e == 0 && e ^ (b << 17) == 0 && (f << 45) | (f >> 19) == 0);
        assert(a == 0 && b == 0 && c == 0 && d == 0) by (bit_vector)
            requires
                a ^ (d ^ b) == 0,
                b ^ (c ^ a) == 0,
                (c ^ a) ^ (b << 17) == 0,
                ((d ^ b) << 45) | ((d ^ b) >> 19) == 0,
        ;
        assert(s =~= seq![0u64, 0, 0, 0]);
    }
}

/// A product by an odd factor is undone by a product by that factor's inverse.
proof fn lemma_product_is_undone(x: u64, factor: u64, inverse: u64, k: int)
    requires
        factor * inverse == k * 0x1_0000_0000_0000_0000 + 1,
    ensures
        low_product(low_product(x, factor), inverse) == x,
{
    let m: int = 0x1_0000_0000_0000_0000;
    let p: int = x * factor;
    vstd::arithmetic::div_mod::lemma_mul_mod_noop_left(p, inverse as int, m);
    vstd::arithmetic::mul::lemma_mul_is_associative(x as int, factor as int, inverse as int);
    assert(x * (k * m + 1) == m * (x * k) + x) by (nonlinear_arith);
    vstd::arithmetic::div_mod::lemma_mod_multiples_vanish(x * k, x as int, m);
    assert(low_product(x, factor) == p % m) by {
        assert(0 <= p) by (nonlinear_arith)
            requires
                p == x * factor,
        ;
        vstd::arithmetic::div_mod::lemma_mod_bound(p, m);
    }
    let q = low_product(x, factor) * inverse;
    assert(q == (p % m) * inverse);
    assert(q % m == x);
}

/// The counter that a word was mixed from.
pub open spec fn unmixed(w: u64) -> u64 {
    let b = w ^ (w >> 31) ^ (w >> 62);
    let y = low_product(b, 0x3196_42B2_D24D_8EC3);
    let a = y ^ (y >> 27) ^ (y >> 54);
    let x = low_product(a, 0x96DE_1B17_3F11_9089);
    x ^ (x >> 30) ^ (x >> 60)
}

/// A seed is spread without loss: each word of the state tells the counter it was mixed from, and
/// the counters are the seed and the odd steps of the golden ratio behind it.
pub proof fn law_every_word_tells_the_seed(seed: u64, i: int)
    requires
        0 <= i < 4,
    ensures
        seeded_state(seed).len() == 4,
        unmixed(seeded_state(seed)[i]) == (seed + (i + 1) * 0x9E37_79B9_7F4A_7C15)
            % 0x1_0000_0000_0000_0000,
{
    let z = counter(seed, i + 1);
    lemma_counter(seed, i + 1);
    lemma_unmixed(z);
}

proof fn lemma_counter(seed: u64, n: int)
    requires
        0 <= n <= 4,
    ensures
        counter(seed, n) == (seed + n * 0x9E37_79B9_7F4A_7C15) % 0x1_0000_0000_0000_0000,
    decreases n,
{
    if n > 0 {
        lemma_counter(seed, n - 1);
    }
}

proof fn lemma_unmixed(z: u64)
    ensures
        unmixed(mixed(z)) == z,
{
    let x = z ^ (z >> 30);
    let a = low_product(x, 0xBF58_476D_1CE4_E5B9);
    let y = a ^ (a >> 27);
    let b = low_product(y, 0x94D0_49BB_1331_11EB);
    let w = b ^ (b >> 31);
    assert(mixed(z) == w);
    assert(w ^ (w >> 31) ^ (w >> 62) == b) by (bit_vector)
        requires
            w == b ^ (b >> 31),
    ;
    lemma_product_is_undone(
        y,
        0x94D0_49BB_1331_11EB,
        0x3196_42B2_D24D_8EC3,
        2077064247507883091,
    );
    assert(y ^ (y >> 27) ^ (y >> 54) == a) by (bit_vector)
        requires
            y == a ^ (a >> 27),
    ;
    lemma_product_is_undone(
        x,
        0xBF58_476D_1CE4_E5B9,
        0x96DE_1B17_3F11_9089,
        8125545580553827436,
    );
    assert(x ^ (x >> 30) ^ (x >> 60) == z) by (bit_vector)
        requires
            x == z ^ (z >> 30),
    ;
}

/// What is drawn tells the second word of the state: undone are a product by nine, a turn by
/// seven and a product by five.
pub proof fn law_a_draw_tells_the_second_word(s: Seq<u64>)
    requires
        s.len() == 4,
    ensures
        ({
            let t = low_product(drawn(s), 0x8E38_E38E_38E3_8E39);
            low_product((t >> 7) | (t << 57), 0xCCCC_CCCC_CCCC_CCCD) == s[1]
        }),
{
    let p = low_product(s[1], 5);
    let q = (p << 7) | (p >> 57);
    assert(turned(p, 7) == q);
    lemma_product_is_undone(q, 9, 0x8E38_E38E_38E3_8E39, 5);
    lemma_product_is_undone(s[1], 5, 0xCCCC_CCCC_CCCC_CCCD, 4);
    assert((q >> 7) | (q << 57) == p) by (bit_vector)
        requires
            q == (p << 7) | (p >> 57),
    ;
}

/// A draw can be taken back: the state after it tells the one before.
pub proof fn law_a_draw_can_be_taken_back(s: Seq<u64>)
    requires
        s.len() == 4,
    ensures
        ({
            let next = stepped(s);
            let d = (next[3] >> 45) | (next[3] << 19);
            let m = next[2] ^ (next[1] << 17);
            let c = m ^ (m << 17) ^ (m << 34) ^ (m << 51);
            &&& next.len() == 4
            &&& s[0] == next[0] ^ d
            &&& s[1] == next[1] ^ c
            &&& s[2] == c ^ next[0] ^ d
            &&& s[3] == d ^ next[1] ^ c
        }),
{
    let (s0, s1, s2, s3) = (s[0], s[1], s[2], s[3]);
    let (c, d) = (s2 ^ s0, s3 ^ s1);
    let (n0, n1, n2, n3) = (s0 ^ d, s1 ^ c, c ^ (s1 << 17), (d << 45) | (d >> 19));
    let next = stepped(s);
    assert(turned(d, 45) == n3);
    assert(next[0] == n0 && next[1] == n1 && next[2] == n2 && next[3] == n3);
    let m = n2 ^ (n1 << 17);
    assert((n3 >> 45) | (n3 << 19) == d) by (bit_vector)
        requires
            n3 == (d << 45) | (d >> 19),
    ;
    assert(m ^ (m << 17) ^ (m << 34) ^ (m << 51) == c) by (bit_vector)
        requires
            m == (c ^ (s1 << 17)) ^ ((s1 ^ c) << 17),
    ;
    assert(s0 == n0 ^ d && s1 == n1 ^ c && s2 == c ^ n0 ^ d && s3 == d ^ n1 ^ c) by (bit_vector)
        requires
            n0 == s0 ^ d,
            n1 == s1 ^ c,
            c == s2 ^ s0,
            d == s3 ^ s1,
    ;
}

} // verus!
