use vstd::prelude::*;
use vstd::arithmetic::power2::*;
use vstd::arithmetic::div_mod::*;
use crate::mpz::{
    Mpz, limbs_val, bitlen, lemma_limbs_val_top_bound, lemma_limbs_val_upper, lemma_bitlen_bounds,
    lemma_limbs_val_front, limbs_add, limbs_mod_pow2, limbs_mul, MAX_LIMBS,
};
use crate::sign::Sign;

verus! {

/// Seed installed by the default and Mersenne-Twister constructors.
pub const MT_DEFAULT_SEED: u32 = 5489;

/// Built-in linear-congruential multiplier for size-selected construction.
pub const LC_TABLE_MULT: u64 = 6364136223846793005;

/// Built-in linear-congruential addend for size-selected construction.
pub const LC_TABLE_ADD: u64 = 1442695040888963407;

/// Upper bound on the bit count of one uniform draw: one limb is drawn per
/// 32 bits, and at most `MAX_LIMBS` limbs can back the result, so this is
/// exactly `32 * MAX_LIMBS`.
pub const MAX_DRAW_BITS: u64 = 0x2_0000_0000;

/// Abstract generator state: the algorithm, its parameters, and its position.
#[verifier::ext_equal]
pub enum GenView {
    /// Linear congruential: the state advance is `x' = (a*x + c) mod 2^m2exp`,
    /// over multiprecision values for any modulus width.
    Lc { a: nat, c: nat, m2exp: u64, x: nat },
    /// Mersenne Twister over a table of 624 words with a read position.
    Mt { words: Seq<u32>, index: int },
}

/// An initialized generator state.
pub open spec fn gen_wf(g: GenView) -> bool {
    match g {
        GenView::Lc { a, c, m2exp, x } => {
            &&& a < pow2(m2exp as nat)
            &&& c < pow2(m2exp as nat)
            &&& x < pow2(m2exp as nat)
        },
        GenView::Mt { words, index } => {
            &&& words.len() == 624
            &&& 1 <= index <= 624
        },
    }
}

/// Linear-congruential state advance.
pub open spec fn lc_advance(a: nat, c: nat, m2exp: u64, x: nat) -> nat {
    (a * x + c) % pow2(m2exp as nat)
}

/// Word emitted from a linear-congruential state: the low word of the
/// advanced state.
pub open spec fn lc_output(x: nat) -> u32 {
    (x % 0x1_0000_0000) as u32
}

/// Mersenne-Twister output tempering.
pub open spec fn mt_temper(y0: u32) -> u32 {
    let y1 = y0 ^ (y0 >> 11);
    let y2 = y1 ^ ((y1 << 7) & 0x9d2c_5680);
    let y3 = y2 ^ ((y2 << 15) & 0xefc6_0000);
    y3 ^ (y3 >> 18)
}

/// New word placed at position `i` by the in-place twist, given the table as
/// already rewritten below `i`.
pub open spec fn mt_twist_val(s: Seq<u32>, i: int) -> u32 {
    let y = (s[i] & 0x8000_0000) | (s[(i + 1) % 624] & 0x7fff_ffff);
    let t = s[(i + 397) % 624] ^ (y >> 1);
    if y & 1 == 1 {
        t ^ 0x9908_b0df
    } else {
        t
    }
}

/// Table after the first `k` steps of the in-place twist.
pub open spec fn mt_twist_upto(s: Seq<u32>, k: int) -> Seq<u32>
    decreases k,
{
    if k <= 0 {
        s
    } else {
        let p = mt_twist_upto(s, k - 1);
        p.update(k - 1, mt_twist_val(p, k - 1))
    }
}

/// Fully twisted table.
pub open spec fn mt_twist(s: Seq<u32>) -> Seq<u32> {
    mt_twist_upto(s, 624)
}

/// Word `i` of the seeded table, derived from its predecessor.
pub open spec fn mt_seed_word(prev: u32, i: int) -> u32 {
    ((1812433253 * ((prev ^ (prev >> 30)) as int) + i) % 0x1_0000_0000) as u32
}

/// First `k` words of the table seeded from a 32-bit seed.
pub open spec fn mt_seed_upto(seed: u32, k: int) -> Seq<u32>
    decreases k,
{
    if k <= 1 {
        seq![seed]
    } else {
        let p = mt_seed_upto(seed, k - 1);
        p.push(mt_seed_word(p[k - 2], k - 1))
    }
}

/// Freshly seeded Mersenne-Twister state.
pub open spec fn mt_init(seed: u32) -> GenView {
    GenView::Mt { words: mt_seed_upto(seed, 624), index: 624 }
}

/// Initial state of a linear-congruential generator: both parameters are
/// reduced into the modulus ring, the state starts at zero.
pub open spec fn lc_init(av: nat, cv: nat, m2exp: u64) -> GenView {
    GenView::Lc { a: av % pow2(m2exp as nat), c: cv % pow2(m2exp as nat), m2exp, x: 0 }
}

/// State after re-seeding: the algorithm and its parameters are kept, the
/// position is reset, and the seed selects the new internal state.
pub open spec fn reseed(g: GenView, seed: u64) -> GenView {
    match g {
        GenView::Lc { a, c, m2exp, x } => GenView::Lc {
            a,
            c,
            m2exp,
            x: (seed as nat) % pow2(m2exp as nat),
        },
        GenView::Mt { words, index } => mt_init((seed % 0x1_0000_0000) as u32),
    }
}

/// One state advance together with the word it emits.
pub open spec fn next_word(g: GenView) -> (u32, GenView) {
    match g {
        GenView::Lc { a, c, m2exp, x } => {
            let x2 = lc_advance(a, c, m2exp, x);
            (lc_output(x2), GenView::Lc { a, c, m2exp, x: x2 })
        },
        GenView::Mt { words, index } => {
            if index < 624 {
                (mt_temper(words[index]), GenView::Mt { words, index: index + 1 })
            } else {
                let w = mt_twist(words);
                (mt_temper(w[0]), GenView::Mt { words: w, index: 1 })
            }
        },
    }
}

/// The `k` words drawn in sequence, and the state they leave behind.
pub open spec fn draw_words(g: GenView, k: nat) -> (Seq<u32>, GenView)
    decreases k,
{
    if k == 0 {
        (Seq::<u32>::empty(), g)
    } else {
        let prev = draw_words(g, (k - 1) as nat);
        let step = next_word(prev.1);
        (prev.0.push(step.0), step.1)
    }
}

/// Number of words needed for a `bits`-wide draw.
pub open spec fn draw_count(bits: nat) -> nat {
    if bits % 32 == 0 {
        bits / 32
    } else {
        bits / 32 + 1
    }
}

/// Drawn words with the top word reduced to the remaining bit count.
pub open spec fn mask_words(ws: Seq<u32>, bits: nat) -> Seq<u32> {
    if bits % 32 == 0 {
        ws
    } else {
        ws.update(ws.len() - 1, (((ws.last() as nat) % pow2(bits % 32)) as u32))
    }
}

/// Value and final state of a draw over `[0, 2^bits)`.
pub open spec fn bits_draw(g: GenView, bits: nat) -> (nat, GenView) {
    let ws = draw_words(g, draw_count(bits));
    (limbs_val(mask_words(ws.0, bits)), ws.1)
}

/// Fresh draws attempted before falling back to a fold: the native engine
/// redraws out-of-range values; a fixed budget keeps the draw total.
pub const DRAW_TRIES: u64 = 32;

/// Value and final state of a bounded draw with `tries` attempts left: an
/// out-of-range draw is redrawn, and the last attempt is folded into range
/// by one subtraction.
pub open spec fn retry_draw(g: GenView, n: nat, tries: nat) -> (nat, GenView)
    decreases tries,
{
    let d = bits_draw(g, bitlen(n));
    if tries <= 1 {
        (
            if d.0 >= n {
                (d.0 - n) as nat
            } else {
                d.0
            },
            d.1,
        )
    } else if d.0 < n {
        d
    } else {
        retry_draw(d.1, n, (tries - 1) as nat)
    }
}

/// Value and final state of a draw over `[0, n)`.
pub open spec fn bounded_draw(g: GenView, n: nat) -> (nat, GenView) {
    retry_draw(g, n, DRAW_TRIES as nat)
}

/// `2^e` as a machine value.
fn pow2_u128(e: u64) -> (r: u128)
    requires
        e <= 64,
    ensures
        r == pow2(e as nat),
        r > 0,
{
    let mut r: u128 = 1;
    let mut i: u64 = 0;
    proof {
        lemma2_to64();
        lemma2_to64_rest();
    }
    while i < e
        invariant
            i <= e,
            e <= 64,
            r == pow2(i as nat),
        decreases e - i,
    {
        proof {
            lemma_pow2_unfold((i + 1) as nat);
            lemma2_to64();
            lemma2_to64_rest();
            if (i as nat) < 64 {
                lemma_pow2_strictly_increases(i as nat, 64);
            }
        }
        r = r * 2;
        i = i + 1;
    }
    r
}

/// Reduce a native value's limbs modulo `2^e`.
fn u64_mod_pow2_limbs(v: u64, e: u64) -> (r: Vec<u32>)
    ensures
        limbs_val(r@) == (v as nat) % pow2(e as nat),
        limbs_val(r@) < pow2(e as nat),
{
    proof {
        lemma_pow2_pos(e as nat);
    }
    limbs_mod_pow2(Mpz::from_u64(v).into_limbs(), e)
}

/// Fill the Mersenne-Twister word table from a 32-bit seed.
fn mt_seed_vec(seed: u32) -> (r: Vec<u32>)
    ensures
        r@ == mt_seed_upto(seed, 624),
        r@.len() == 624,
{
    let mut w: Vec<u32> = Vec::new();
    w.push(seed);
    proof {
        assert(w@ =~= mt_seed_upto(seed, 1));
    }
    let mut i: usize = 1;
    while i < 624
        invariant
            1 <= i <= 624,
            w@.len() == i,
            w@ == mt_seed_upto(seed, i as int),
        decreases 624 - i,
    {
        let prev = w[i - 1];
        let t: u32 = prev ^ (prev >> 30);
        let prod: u64 = 1812433253u64 * (t as u64) + (i as u64);
        let word: u32 = (prod % 0x1_0000_0000) as u32;
        w.push(word);
        proof {
            assert(mt_seed_upto(seed, i + 1) == mt_seed_upto(seed, i as int).push(
                mt_seed_word(mt_seed_upto(seed, i as int)[i - 1], i as int),
            ));
            assert(word == mt_seed_word(prev, i as int));
        }
        i = i + 1;
    }
    w
}

/// Apply the in-place twist to the full table.
fn mt_twist_vec(words: &mut Vec<u32>)
    requires
        old(words)@.len() == 624,
    ensures
        final(words)@ == mt_twist(old(words)@),
        final(words)@.len() == 624,
{
    let ghost orig = words@;
    let mut i: usize = 0;
    while i < 624
        invariant
            i <= 624,
            words@.len() == 624,
            words@ == mt_twist_upto(orig, i as int),
        decreases 624 - i,
    {
        let i1: usize = if i == 623 {
            0
        } else {
            i + 1
        };
        let im: usize = if i + 397 >= 624 {
            i + 397 - 624
        } else {
            i + 397
        };
        let y: u32 = (words[i] & 0x8000_0000) | (words[i1] & 0x7fff_ffff);
        let t0: u32 = words[im] ^ (y >> 1);
        let t: u32 = if y & 1 == 1 {
            t0 ^ 0x9908_b0df
        } else {
            t0
        };
        words.set(i, t);
        proof {
            assert(i1 as int == (i as int + 1) % 624);
            assert(im as int == (i as int + 397) % 624);
            assert(t == mt_twist_val(mt_twist_upto(orig, i as int), i as int));
            assert(mt_twist_upto(orig, i as int + 1) == mt_twist_upto(orig, i as int).update(
                i as int,
                mt_twist_val(mt_twist_upto(orig, i as int), i as int),
            ));
        }
        i = i + 1;
    }
}

/// Temper one table word for output.
fn mt_temper_exec(y0: u32) -> (r: u32)
    ensures
        r == mt_temper(y0),
{
    let y1: u32 = y0 ^ (y0 >> 11);
    let y2: u32 = y1 ^ ((y1 << 7) & 0x9d2c_5680);
    let y3: u32 = y2 ^ ((y2 << 15) & 0xefc6_0000);
    y3 ^ (y3 >> 18)
}

/// The owned random-generator handle.
///
/// When `lc` is set, the limb buffers carry a multiprecision
/// linear-congruential state and the word table is empty; otherwise the
/// table and position carry a Mersenne-Twister state and the limb buffers
/// are unused.
pub struct RandState {
    lc: bool,
    m2exp: u64,
    a_limbs: Vec<u32>,
    c_limbs: Vec<u32>,
    x_limbs: Vec<u32>,
    words: Vec<u32>,
    index: usize,
}

impl View for RandState {
    type V = GenView;

    closed spec fn view(&self) -> GenView {
        if self.lc {
            GenView::Lc {
                a: limbs_val(self.a_limbs@),
                c: limbs_val(self.c_limbs@),
                m2exp: self.m2exp,
                x: limbs_val(self.x_limbs@),
            }
        } else {
            GenView::Mt { words: self.words@, index: self.index as int }
        }
    }
}

impl RandState {
    /// The handle is in one of the initialized generator states.
    pub open spec fn valid(&self) -> bool {
        gen_wf(self@)
    }

    /// Default algorithm: the Mersenne Twister with its standard seed.
    pub fn new() -> (r: RandState)
        ensures
            r.valid(),
            r@ == mt_init(MT_DEFAULT_SEED),
    {
        RandState::new_mt()
    }

    /// Mersenne-Twister generator.
    pub fn new_mt() -> (r: RandState)
        ensures
            r.valid(),
            r@ == mt_init(MT_DEFAULT_SEED),
    {
        let words = mt_seed_vec(MT_DEFAULT_SEED);
        RandState {
            lc: false,
            m2exp: 0,
            a_limbs: Vec::new(),
            c_limbs: Vec::new(),
            x_limbs: Vec::new(),
            words,
            index: 624,
        }
    }

    /// Linear-congruential generator advancing by `x' = (a*x + c) mod 2^m2exp`,
    /// for any modulus width; the state is kept as a multiprecision value.
    ///
    /// Parameter quality (full period) is the caller's responsibility and is
    /// not validated here.
    pub fn new_lc_2exp(a: Mpz, c: u64, m2exp: u64) -> (r: RandState)
        ensures
            r.valid(),
            r@ == lc_init(a@, c as nat, m2exp),
    {
        proof {
            lemma_pow2_pos(m2exp as nat);
        }
        let ar = limbs_mod_pow2(a.into_limbs(), m2exp);
        let cr = u64_mod_pow2_limbs(c, m2exp);
        RandState {
            lc: true,
            m2exp,
            a_limbs: ar,
            c_limbs: cr,
            x_limbs: Vec::new(),
            words: Vec::new(),
            index: 624,
        }
    }

    /// Linear-congruential generator with built-in parameters for the
    /// requested modulus size; table entries exist for sizes 1 through 64.
    pub fn new_lc_2exp_size(size: u64) -> (r: RandState)
        requires
            1 <= size <= 64,
        ensures
            r.valid(),
            r@ == lc_init(LC_TABLE_MULT as nat, LC_TABLE_ADD as nat, size),
    {
        proof {
            lemma_pow2_pos(size as nat);
        }
        let ar = u64_mod_pow2_limbs(LC_TABLE_MULT, size);
        let cr = u64_mod_pow2_limbs(LC_TABLE_ADD, size);
        RandState {
            lc: true,
            m2exp: size,
            a_limbs: ar,
            c_limbs: cr,
            x_limbs: Vec::new(),
            words: Vec::new(),
            index: 624,
        }
    }

    /// Re-seed in place; later draws depend only on the seed and algorithm.
    pub fn seed_ui(&mut self, seed: u64)
        requires
            old(self).valid(),
        ensures
            final(self).valid(),
            final(self)@ == reseed(old(self)@, seed),
    {
        if self.lc {
            let x2 = u64_mod_pow2_limbs(seed, self.m2exp);
            self.x_limbs = x2;
        } else {
            let s32: u32 = (seed % 0x1_0000_0000) as u32;
            let words = mt_seed_vec(s32);
            self.words = words;
            self.index = 624;
        }
    }

    /// Re-seed from a multiprecision value; its low 64 bits select the seed.
    pub fn seed(&mut self, seed: Mpz)
        requires
            old(self).valid(),
        ensures
            final(self).valid(),
            final(self)@ == reseed(old(self)@, ((seed@ % pow2(64)) as u64)),
    {
        let s = seed.low_u64();
        self.seed_ui(s);
    }

    /// Advance the generator once and emit one word.
    fn next_u32(&mut self) -> (w: u32)
        requires
            old(self).valid(),
        ensures
            final(self).valid(),
            w == next_word(old(self)@).0,
            final(self)@ == next_word(old(self)@).1,
    {
        if self.lc {
            let prod = limbs_mul(&self.x_limbs, &self.a_limbs);
            let sum = limbs_add(&prod, &self.c_limbs);
            let x2 = limbs_mod_pow2(sum, self.m2exp);
            proof {
                lemma_pow2_pos(self.m2exp as nat);
                assert(limbs_val(self.x_limbs@) * limbs_val(self.a_limbs@) == limbs_val(
                    self.a_limbs@,
                ) * limbs_val(self.x_limbs@)) by (nonlinear_arith);
            }
            let out: u32 = if x2.len() > 0 {
                x2[0]
            } else {
                0
            };
            proof {
                lemma2_to64();
                if x2@.len() > 0 {
                    lemma_limbs_val_front(x2@);
                    lemma_mod_multiples_vanish(
                        limbs_val(x2@.skip(1)) as int,
                        x2@[0] as int,
                        0x1_0000_0000,
                    );
                    lemma_small_mod(x2@[0] as nat, 0x1_0000_0000);
                } else {
                    assert(limbs_val(x2@) == 0);
                }
            }
            self.x_limbs = x2;
            out
        } else {
            if self.index >= 624 {
                mt_twist_vec(&mut self.words);
                self.index = 0;
            }
            let w = self.words[self.index];
            self.index = self.index + 1;
            mt_temper_exec(w)
        }
    }

    /// Draw a uniformly distributed integer in `[0, 2^bits)`.
    pub fn urandom_2exp(&mut self, bits: u64) -> (r: Mpz)
        requires
            old(self).valid(),
            bits <= MAX_DRAW_BITS,
        ensures
            final(self).valid(),
            r@ == bits_draw(old(self)@, bits as nat).0,
            final(self)@ == bits_draw(old(self)@, bits as nat).1,
            r@ < pow2(bits as nat),
    {
        let ghost g0 = self@;
        let full: u64 = bits / 32;
        let rem: u64 = bits % 32;
        let count: usize = (if rem == 0 {
            full
        } else {
            full + 1
        }) as usize;
        proof {
            assert(count as nat == draw_count(bits as nat));
            assert(count <= MAX_LIMBS);
        }
        let mut ws: Vec<u32> = Vec::new();
        proof {
            assert(ws@ =~= draw_words(g0, 0).0);
        }
        let mut i: usize = 0;
        while i < count
            invariant
                i <= count,
                ws@.len() == i,
                self.valid(),
                ws@ == draw_words(g0, i as nat).0,
                self@ == draw_words(g0, i as nat).1,
            decreases count - i,
        {
            let w = self.next_u32();
            ws.push(w);
            proof {
                assert(draw_words(g0, (i + 1) as nat).0 == draw_words(g0, i as nat).0.push(
                    next_word(draw_words(g0, i as nat).1).0,
                ));
            }
            i = i + 1;
        }
        let ghost drawn = ws@;
        if rem != 0 {
            let last = ws[count - 1];
            let m128 = pow2_u128(rem);
            proof {
                lemma2_to64();
                lemma_pow2_strictly_increases(rem as nat, 32);
            }
            let m: u32 = m128 as u32;
            let masked: u32 = last % m;
            ws.set(count - 1, masked);
            proof {
                assert(ws@ == mask_words(drawn, bits as nat));
            }
        } else {
            proof {
                assert(ws@ == mask_words(drawn, bits as nat));
            }
        }
        proof {
            lemma2_to64();
            if ws@.len() == 0 {
                lemma_pow2_pos(bits as nat);
                assert(limbs_val(ws@) == 0);
            } else if rem == 0 {
                lemma_limbs_val_upper(ws@);
                assert(32 * ws@.len() == bits);
            } else {
                lemma_limbs_val_top_bound(ws@, rem as nat);
                assert((32 * (ws@.len() - 1) + rem as nat) == bits);
            }
        }
        Mpz::from_limbs(ws)
    }

    /// Draw an integer in `[0, n)`: draws of `bitlen(n)` bits, redrawn while
    /// out of range, up to a fixed budget of attempts; the last attempt is
    /// folded into range by one subtraction.
    ///
    /// A non-positive bound is undefined in the native contract; here the
    /// positive bound is a precondition, so the case cannot be reached.
    pub fn urandom(&mut self, n: &Mpz) -> (r: Mpz)
        requires
            old(self).valid(),
            n@ > 0,
        ensures
            final(self).valid(),
            r@ == bounded_draw(old(self)@, n@).0,
            final(self)@ == bounded_draw(old(self)@, n@).1,
            r@ < n@,
    {
        let ghost g0 = self@;
        let b = n.bit_length();
        proof {
            lemma_bitlen_bounds(n@);
            assert(bitlen(n@) == 1 + bitlen(n@ / 2));
            lemma_pow2_unfold(b as nat);
        }
        let mut tries: u64 = DRAW_TRIES;
        while tries > 1
            invariant
                self.valid(),
                1 <= tries <= DRAW_TRIES,
                n@ > 0,
                b == bitlen(n@),
                b <= MAX_DRAW_BITS,
                g0 == old(self)@,
                bounded_draw(g0, n@) == retry_draw(self@, n@, tries as nat),
            decreases tries,
        {
            let ghost pre = self@;
            let x = self.urandom_2exp(b);
            if matches!(x.cmp_value(n), Sign::Less) {
                proof {
                    assert(retry_draw(pre, n@, tries as nat) == bits_draw(pre, bitlen(n@)));
                }
                return x;
            }
            tries = tries - 1;
            proof {
                assert(retry_draw(pre, n@, (tries + 1) as nat) == retry_draw(
                    bits_draw(pre, bitlen(n@)).1,
                    n@,
                    tries as nat,
                ));
            }
        }
        let ghost pre = self@;
        let x = self.urandom_2exp(b);
        proof {
            lemma_bitlen_bounds(n@);
            lemma_pow2_unfold(b as nat);
        }
        match x.cmp_value(n) {
            Sign::Less => x,
            _ => x.sub_val(n),
        }
    }
}

/// Copy a word table.
fn clone_words(v: &Vec<u32>) -> (r: Vec<u32>)
    ensures
        r@ == v@,
{
    let mut r: Vec<u32> = Vec::new();
    let mut i: usize = 0;
    while i < v.len()
        invariant
            i <= v@.len(),
            r@.len() == i,
            forall|j: int| 0 <= j < i ==> r@[j] == v@[j],
        decreases v@.len() - i,
    {
        r.push(v[i]);
        i = i + 1;
    }
    proof {
        assert(r@ =~= v@);
    }
    r
}

impl Clone for RandState {
    /// Deep copy of the generator state: the clone then draws the identical
    /// sequence the original would, and the two evolve independently.
    fn clone(&self) -> (r: RandState)
        ensures
            r@ == self@,
    {
        RandState {
            lc: self.lc,
            m2exp: self.m2exp,
            a_limbs: clone_words(&self.a_limbs),
            c_limbs: clone_words(&self.c_limbs),
            x_limbs: clone_words(&self.x_limbs),
            words: clone_words(&self.words),
            index: self.index,
        }
    }
}

/// Generators in equal states draw identical word sequences; in particular a
/// clone and its original produce the same subsequent draws.
pub proof fn lemma_equal_states_equal_draws(g1: GenView, g2: GenView, k: nat)
    requires
        g1 == g2,
    ensures
        draw_words(g1, k).0 == draw_words(g2, k).0,
{
}

/// Re-seeding twice in a row with one seed leaves the state one re-seeding
/// leaves: draws afterwards are determined by the last seed alone.
pub proof fn lemma_reseed_idempotent(g: GenView, seed: u64)
    ensures
        reseed(reseed(g, seed), seed) == reseed(g, seed),
{
}

} // verus!
