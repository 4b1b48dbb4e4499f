use vstd::prelude::*;
use vstd::arithmetic::power2::*;
use vstd::arithmetic::div_mod::*;
use vstd::bits::*;
use crate::sign::Sign;

verus! {

/// Largest number of limbs a numeric handle may carry. One allocation holds
/// fewer than 2^31 bytes on 32-bit targets, so fewer than 2^29 32-bit limbs;
/// this cap stays inside that limit on every supported target and keeps every
/// derived bit count (32 per limb) within one machine word.
pub const MAX_LIMBS: usize = 0x1000_0000;

/// Value of a little-endian limb sequence: limb `i` weighs `2^(32*i)`.
pub open spec fn limbs_val(s: Seq<u32>) -> nat
    decreases s.len(),
{
    if s.len() == 0 {
        0
    } else {
        (limbs_val(s.drop_last()) + s.last() * pow2(32 * (s.len() - 1) as nat)) as nat
    }
}

/// Number of binary digits of `v` (0 for 0).
pub open spec fn bitlen(v: nat) -> nat
    decreases v,
{
    if v == 0 {
        0
    } else {
        (1 + bitlen(v / 2)) as nat
    }
}

/// One step of the limb-value recurrence, for use at call sites.
pub proof fn lemma_limbs_val_unfold(s: Seq<u32>)
    requires
        s.len() > 0,
    ensures
        limbs_val(s) == limbs_val(s.drop_last()) + s.last() * pow2(32 * (s.len() - 1) as nat),
{
    lemma_pow2_pos(32 * (s.len() - 1) as nat);
    assert(s.last() * pow2(32 * (s.len() - 1) as nat) >= 0) by (nonlinear_arith)
        requires
            pow2(32 * (s.len() - 1) as nat) > 0,
    ;
}

/// Appending a limb adds its weighted value.
pub proof fn lemma_limbs_val_push(s: Seq<u32>, w: u32)
    ensures
        limbs_val(s.push(w)) == limbs_val(s) + w * pow2(32 * s.len()),
{
    let t = s.push(w);
    assert(t.drop_last() =~= s);
    lemma_limbs_val_unfold(t);
}

/// A non-negative multiprecision integer: the owned numeric handle.
///
/// It owns exactly one limb buffer; duplication goes through `clone`,
/// never through a shallow copy of the limb storage.
#[derive(Debug)]
pub struct Mpz {
    limbs: Vec<u32>,
}

impl View for Mpz {
    type V = nat;

    closed spec fn view(&self) -> nat {
        limbs_val(self.limbs@)
    }
}

impl Mpz {
    /// Canonical form: no leading zero limb, bounded limb count.
    #[verifier::type_invariant]
    pub closed spec fn wf(&self) -> bool {
        &&& self.limbs@.len() > 0 ==> self.limbs@.last() != 0
        &&& self.limbs@.len() <= MAX_LIMBS
    }

    /// The zero value.
    pub fn new() -> (r: Mpz)
        ensures
            r@ == 0,
    {
        Mpz { limbs: Vec::new() }
    }

    /// The value of a native unsigned integer.
    pub fn from_u64(v: u64) -> (r: Mpz)
        ensures
            r@ == v,
    {
        let mut limbs: Vec<u32> = Vec::new();
        let lo: u32 = (v % 0x1_0000_0000) as u32;
        let hi: u32 = (v / 0x1_0000_0000) as u32;
        if hi != 0 {
            limbs.push(lo);
            limbs.push(hi);
        } else if lo != 0 {
            limbs.push(lo);
        }
        proof {
            lemma2_to64();
            let s = limbs@;
            lemma_fundamental_div_mod(v as int, 0x1_0000_0000);
            if hi != 0 {
                assert(s =~= Seq::<u32>::empty().push(lo).push(hi));
                lemma_limbs_val_push(Seq::<u32>::empty(), lo);
                lemma_limbs_val_push(Seq::<u32>::empty().push(lo), hi);
                assert(limbs_val(s) == lo + hi * pow2(32));
            } else if lo != 0 {
                assert(s =~= Seq::<u32>::empty().push(lo));
                lemma_limbs_val_push(Seq::<u32>::empty(), lo);
                assert(limbs_val(s) == lo * pow2(0));
            }
        }
        Mpz { limbs }
    }

    /// Wrap a limb sequence, stripping leading zero limbs.
    pub(crate) fn from_limbs(mut limbs: Vec<u32>) -> (r: Mpz)
        requires
            limbs@.len() <= MAX_LIMBS,
        ensures
            r@ == limbs_val(limbs@),
    {
        let ghost orig = limbs@;
        while limbs.len() > 0 && limbs[limbs.len() - 1] == 0
            invariant
                limbs@.len() <= MAX_LIMBS,
                limbs_val(limbs@) == limbs_val(orig),
            decreases limbs@.len(),
        {
            proof {
                lemma_limbs_val_unfold(limbs@);
            }
            limbs.pop();
        }
        Mpz { limbs }
    }
}

/// The value of a limb sequence is below `2^(32*len)`.
pub proof fn lemma_limbs_val_upper(s: Seq<u32>)
    ensures
        limbs_val(s) < pow2(32 * s.len()),
    decreases s.len(),
{
    if s.len() == 0 {
        lemma_pow2_pos(0);
    } else {
        let n = (s.len() - 1) as nat;
        lemma_limbs_val_upper(s.drop_last());
        lemma_pow2_adds(32 * n, 32);
        lemma2_to64();
        assert(s.last() * pow2(32 * n) <= 0xffff_ffff * pow2(32 * n)) by (nonlinear_arith)
            requires
                s.last() <= 0xffff_ffffu32,
        ;
        assert(pow2(32 * n) + 0xffff_ffff * pow2(32 * n) == pow2(32) * pow2(32 * n))
            by (nonlinear_arith)
            requires
                pow2(32) == 0x1_0000_0000,
        ;
    }
}

/// A canonical non-empty limb sequence reaches at least `2^(32*(len-1))`.
pub proof fn lemma_limbs_val_lower(s: Seq<u32>)
    requires
        s.len() > 0,
        s.last() != 0,
    ensures
        limbs_val(s) >= pow2(32 * (s.len() - 1) as nat),
{
    let n = (s.len() - 1) as nat;
    lemma_pow2_pos(32 * n);
    lemma_limbs_val_unfold(s);
    assert(s.last() * pow2(32 * n) >= 1 * pow2(32 * n)) by (nonlinear_arith)
        requires
            s.last() >= 1,
            pow2(32 * n) > 0,
    ;
}

/// Extending with zero limbs keeps the value.
pub proof fn lemma_limbs_val_zext(s: Seq<u32>, k: nat)
    ensures
        limbs_val(s + Seq::new(k, |j: int| 0u32)) == limbs_val(s),
    decreases k,
{
    if k == 0 {
        assert(s + Seq::new(0, |j: int| 0u32) =~= s);
    } else {
        let t = s + Seq::new(k, |j: int| 0u32);
        assert(t.last() == 0);
        assert(t.drop_last() =~= s + Seq::new((k - 1) as nat, |j: int| 0u32));
        lemma_limbs_val_unfold(t);
        lemma_limbs_val_zext(s, (k - 1) as nat);
    }
}

/// Splitting at `i`: the low limbs plus the shifted value of the high limbs.
pub proof fn lemma_limbs_val_split(s: Seq<u32>, i: int)
    requires
        0 <= i <= s.len(),
    ensures
        limbs_val(s) == limbs_val(s.subrange(0, i)) + pow2(32 * i as nat) * limbs_val(
            s.skip(i),
        ),
    decreases s.len(),
{
    if i == s.len() {
        assert(s.subrange(0, i) =~= s);
        assert(s.skip(i) =~= Seq::<u32>::empty());
        assert(limbs_val(Seq::<u32>::empty()) == 0);
        assert(pow2(32 * i as nat) * 0 == 0) by (nonlinear_arith);
    } else {
        let d = s.drop_last();
        lemma_limbs_val_split(d, i);
        assert(d.subrange(0, i) =~= s.subrange(0, i));
        let hi = s.skip(i);
        assert(hi.len() == s.len() - i);
        assert(hi.last() == s.last());
        assert(hi.drop_last() =~= d.skip(i));
        lemma_limbs_val_unfold(s);
        lemma_limbs_val_unfold(hi);
        let p = pow2(32 * i as nat);
        let q = pow2(32 * (s.len() - i - 1) as nat);
        lemma_pow2_adds(32 * i as nat, 32 * (s.len() - i - 1) as nat);
        assert(p * (limbs_val(d.skip(i)) + s.last() * q) == p * limbs_val(d.skip(i)) + s.last()
            * (p * q)) by (nonlinear_arith);
    }
}

/// With equal high limbs above `i` and a larger limb at `i`, the value is larger.
pub proof fn lemma_limbs_val_lex(s: Seq<u32>, t: Seq<u32>, i: int)
    requires
        s.len() == t.len(),
        0 <= i < s.len(),
        s.skip(i + 1) =~= t.skip(i + 1),
        s[i] > t[i],
    ensures
        limbs_val(s) > limbs_val(t),
{
    lemma_limbs_val_split(s, i + 1);
    lemma_limbs_val_split(t, i + 1);
    let a = s.subrange(0, i + 1);
    let b = t.subrange(0, i + 1);
    let p = pow2(32 * i as nat);
    lemma_limbs_val_unfold(a);
    lemma_limbs_val_unfold(b);
    assert(a.drop_last() =~= s.subrange(0, i));
    assert(b.drop_last() =~= t.subrange(0, i));
    lemma_limbs_val_upper(t.subrange(0, i));
    assert(limbs_val(a) >= s[i] * p);
    assert(s[i] * p >= (t[i] + 1) * p) by (nonlinear_arith)
        requires
            s[i] >= t[i] + 1,
            p >= 0,
    ;
    assert((t[i] + 1) * p == t[i] * p + p) by (nonlinear_arith);
    assert(limbs_val(b) < p + t[i] * p);
}

/// A shorter canonical sequence has a smaller value than a longer one.
pub proof fn lemma_limbs_val_len_lt(s: Seq<u32>, t: Seq<u32>)
    requires
        s.len() < t.len(),
        t.last() != 0,
    ensures
        limbs_val(s) < limbs_val(t),
{
    lemma_limbs_val_upper(s);
    lemma_limbs_val_lower(t);
    if 32 * s.len() < 32 * (t.len() - 1) as nat {
        lemma_pow2_strictly_increases(32 * s.len(), 32 * (t.len() - 1) as nat);
    }
}

/// `v` has fewer than `m` binary digits exactly when `v < 2^m`.
pub proof fn lemma_bitlen_bounds(v: nat)
    requires
        v > 0,
    ensures
        pow2((bitlen(v) - 1) as nat) <= v < pow2(bitlen(v)),
    decreases v,
{
    lemma2_to64();
    if v == 1 {
        assert(bitlen(1) == 1 + bitlen(0));
        assert(bitlen(0) == 0);
    } else {
        let h = v / 2;
        lemma_bitlen_bounds(h);
        let b = bitlen(h);
        assert(bitlen(v) == 1 + b);
        assert(b == 1 + bitlen(h / 2));
        lemma_pow2_unfold(b);
        lemma_pow2_unfold((b + 1) as nat);
        assert(v >= 2 * h);
        assert(v <= 2 * h + 1);
        assert(v < pow2((b + 1) as nat));
    }
}

/// The digit count is determined by a bracketing pair of powers of two.
pub proof fn lemma_bitlen_unique(v: nat, k: nat)
    requires
        k > 0,
        pow2((k - 1) as nat) <= v < pow2(k),
    ensures
        bitlen(v) == k,
{
    lemma_pow2_pos((k - 1) as nat);
    lemma_bitlen_bounds(v);
    let b = bitlen(v);
    if b < k {
        if b < k - 1 {
            lemma_pow2_strictly_increases(b, (k - 1) as nat);
        }
        assert(v < pow2((k - 1) as nat));
    } else if b > k {
        lemma_pow2_strictly_increases(k, (b - 1) as nat);
        assert(false);
    }
}

/// Values below `2^m` have at most `m` binary digits.
pub proof fn lemma_bitlen_le(v: nat, m: nat)
    requires
        v < pow2(m),
    ensures
        bitlen(v) <= m,
{
    if v > 0 {
        lemma_bitlen_bounds(v);
        let b = bitlen(v);
        if b > m {
            if m < b - 1 {
                lemma_pow2_strictly_increases(m, (b - 1) as nat);
            }
            assert(false);
        }
    }
}

/// Binary digit count of one machine word.
fn bitlen_u32(x: u32) -> (r: usize)
    ensures
        r == bitlen(x as nat),
        r <= 32,
{
    proof {
        lemma2_to64();
        lemma_bitlen_le(x as nat, 32);
    }
    let mut t: u32 = x;
    let mut k: usize = 0;
    while t > 0
        invariant
            bitlen(x as nat) == k + bitlen(t as nat),
            bitlen(x as nat) <= 32,
        decreases t,
    {
        proof {
            assert(bitlen(t as nat) == 1 + bitlen((t as nat) / 2));
        }
        t = t / 2;
        k = k + 1;
    }
    k
}

impl Mpz {
    /// Number of binary digits of the value (0 for the zero value).
    pub fn bit_length(&self) -> (r: u64)
        ensures
            r == bitlen(self@),
            r <= 32 * MAX_LIMBS,
    {
        proof {
            use_type_invariant(self);
            lemma_limbs_val_upper(self.limbs@);
            lemma_bitlen_le(self@, 32 * self.limbs@.len());
        }
        let n = self.limbs.len();
        if n == 0 {
            return 0;
        }
        let top = self.limbs[n - 1];
        let k = bitlen_u32(top);
        proof {
            let s = self.limbs@;
            let e = 32 * (n - 1) as nat;
            lemma_limbs_val_unfold(s);
            lemma_limbs_val_upper(s.drop_last());
            lemma_bitlen_bounds(top as nat);
            lemma_pow2_adds(e, (k - 1) as nat);
            lemma_pow2_adds(e, k as nat);
            lemma_pow2_pos(e);
            assert(top * pow2(e) >= pow2((k - 1) as nat) * pow2(e)) by (nonlinear_arith)
                requires
                    top >= pow2((k - 1) as nat),
                    pow2(e) > 0,
            ;
            assert(limbs_val(s) >= pow2(e) * pow2((k - 1) as nat)) by {
                assert(pow2((k - 1) as nat) * pow2(e) == pow2(e) * pow2((k - 1) as nat))
                    by (nonlinear_arith);
            }
            assert(limbs_val(s) < pow2(e) + top * pow2(e));
            assert(pow2(e) + top * pow2(e) <= pow2(k as nat) * pow2(e)) by (nonlinear_arith)
                requires
                    top < pow2(k as nat),
                    pow2(e) > 0,
            ;
            assert(pow2(k as nat) * pow2(e) == pow2(e) * pow2(k as nat)) by (nonlinear_arith);
            lemma_bitlen_unique(limbs_val(s), e + k as nat);
        }
        ((n - 1) as u64) * 32 + (k as u64)
    }

    /// Three-way comparison of the values.
    pub fn cmp_value(&self, other: &Mpz) -> (r: Sign)
        ensures
            (r == Sign::Less <==> self@ < other@),
            (r == Sign::Equal <==> self@ == other@),
            (r == Sign::Greater <==> self@ > other@),
    {
        proof {
            use_type_invariant(self);
            use_type_invariant(other);
        }
        let sl = self.limbs.len();
        let ol = other.limbs.len();
        if sl < ol {
            proof {
                lemma_limbs_val_len_lt(self.limbs@, other.limbs@);
            }
            return Sign::Less;
        }
        if sl > ol {
            proof {
                lemma_limbs_val_len_lt(other.limbs@, self.limbs@);
            }
            return Sign::Greater;
        }
        let mut i = sl;
        while i > 0
            invariant
                i <= sl,
                sl == ol,
                sl == self.limbs@.len(),
                ol == other.limbs@.len(),
                forall|j: int| i <= j < sl ==> self.limbs@[j] == other.limbs@[j],
            decreases i,
        {
            let a = self.limbs[i - 1];
            let b = other.limbs[i - 1];
            if a < b {
                proof {
                    assert(other.limbs@.skip(i as int) =~= self.limbs@.skip(i as int));
                    lemma_limbs_val_lex(other.limbs@, self.limbs@, i - 1);
                }
                return Sign::Less;
            }
            if a > b {
                proof {
                    assert(self.limbs@.skip(i as int) =~= other.limbs@.skip(i as int));
                    lemma_limbs_val_lex(self.limbs@, other.limbs@, i - 1);
                }
                return Sign::Greater;
            }
            i = i - 1;
        }
        proof {
            assert(self.limbs@ =~= other.limbs@);
        }
        Sign::Equal
    }

    /// The difference of the values; the subtrahend must not exceed the minuend.
    pub(crate) fn sub_val(&self, other: &Mpz) -> (r: Mpz)
        requires
            other@ <= self@,
        ensures
            r@ == self@ - other@,
    {
        proof {
            use_type_invariant(self);
            use_type_invariant(other);
        }
        let xl = self.limbs.len();
        let yl = other.limbs.len();
        proof {
            if yl > xl {
                lemma_limbs_val_len_lt(self.limbs@, other.limbs@);
            }
        }
        let ghost yext = other.limbs@ + Seq::new((xl - yl) as nat, |j: int| 0u32);
        proof {
            lemma_limbs_val_zext(other.limbs@, (xl - yl) as nat);
        }
        let mut res: Vec<u32> = Vec::new();
        let mut borrow: u32 = 0;
        let mut i: usize = 0;
        while i < xl
            invariant
                i <= xl,
                yl <= xl,
                borrow <= 1,
                res@.len() == i,
                xl == self.limbs@.len(),
                yl == other.limbs@.len(),
                yext.len() == xl,
                forall|j: int| 0 <= j < yl ==> yext[j] == other.limbs@[j],
                forall|j: int| yl <= j < xl ==> yext[j] == 0u32,
                limbs_val(res@) == limbs_val(self.limbs@.subrange(0, i as int)) - limbs_val(
                    yext.subrange(0, i as int),
                ) + borrow * pow2(32 * i as nat),
            decreases xl - i,
        {
            let ghost res0 = res@;
            let ghost b0 = borrow;
            let xi = self.limbs[i];
            let yi = if i < yl {
                other.limbs[i]
            } else {
                0
            };
            let av: u64 = xi as u64;
            let sv: u64 = yi as u64 + borrow as u64;
            let d: u32;
            if av >= sv {
                d = (av - sv) as u32;
                borrow = 0;
            } else {
                d = (av + 0x1_0000_0000 - sv) as u32;
                borrow = 1;
            }
            res.push(d);
            proof {
                let p = pow2(32 * i as nat);
                let p1 = pow2(32 * (i + 1) as nat);
                lemma_pow2_adds(32 * i as nat, 32);
                lemma2_to64();
                lemma_limbs_val_push(res0, d);
                assert(self.limbs@.subrange(0, i + 1) =~= self.limbs@.subrange(0, i as int).push(
                    xi,
                ));
                assert(yext.subrange(0, i + 1) =~= yext.subrange(0, i as int).push(yi));
                lemma_limbs_val_push(self.limbs@.subrange(0, i as int), xi);
                lemma_limbs_val_push(yext.subrange(0, i as int), yi);
                assert(d == xi - yi - b0 + borrow * 0x1_0000_0000);
                assert((xi - yi - b0 + borrow * 0x1_0000_0000) * p == xi * p - yi * p - b0 * p
                    + borrow * p1) by (nonlinear_arith)
                    requires
                        p1 == p * 0x1_0000_0000,
                ;
                assert(d * p == xi * p - yi * p - b0 * p + borrow * p1) by (nonlinear_arith)
                    requires
                        d == xi - yi - b0 + borrow * 0x1_0000_0000,
                        (xi - yi - b0 + borrow * 0x1_0000_0000) * p == xi * p - yi * p - b0 * p
                            + borrow * p1,
                ;
            }
            i = i + 1;
        }
        proof {
            assert(self.limbs@.subrange(0, xl as int) =~= self.limbs@);
            assert(yext.subrange(0, xl as int) =~= yext);
            if borrow != 0 {
                lemma_limbs_val_upper(res@);
                lemma_limbs_val_upper(self.limbs@);
                assert(false);
            }
        }
        Mpz::from_limbs(res)
    }
}

/// With the top limb below `2^r`, the value stays below `2^(32*(len-1)+r)`.
pub proof fn lemma_limbs_val_top_bound(s: Seq<u32>, r: nat)
    requires
        s.len() > 0,
        s.last() < pow2(r),
    ensures
        limbs_val(s) < pow2((32 * (s.len() - 1) + r) as nat),
{
    let e = 32 * (s.len() - 1) as nat;
    lemma_limbs_val_unfold(s);
    lemma_limbs_val_upper(s.drop_last());
    lemma_pow2_adds(e, r);
    lemma_pow2_pos(e);
    assert(pow2(e) + s.last() * pow2(e) <= pow2(r) * pow2(e)) by (nonlinear_arith)
        requires
            s.last() < pow2(r),
            pow2(e) > 0,
    ;
    assert(pow2(r) * pow2(e) == pow2(e) * pow2(r)) by (nonlinear_arith);
}

impl Mpz {
    /// The low 64 bits of the value.
    pub fn low_u64(&self) -> (r: u64)
        ensures
            r == self@ % pow2(64),
    {
        proof {
            use_type_invariant(self);
        }
        let n = self.limbs.len();
        let w0: u32 = if n > 0 {
            self.limbs[0]
        } else {
            0
        };
        let w1: u32 = if n > 1 {
            self.limbs[1]
        } else {
            0
        };
        let r: u64 = (w0 as u64) + (w1 as u64) * 0x1_0000_0000;
        proof {
            let s = self.limbs@;
            lemma2_to64();
            lemma2_to64_rest();
            lemma_pow2_pos(64);
            assert(limbs_val(Seq::<u32>::empty()) == 0);
            if n >= 2 {
                lemma_limbs_val_split(s, 2);
                let lo = s.subrange(0, 2);
                assert(lo.drop_last() =~= seq![s[0]]);
                assert(seq![s[0]].drop_last() =~= Seq::<u32>::empty());
                lemma_limbs_val_unfold(lo);
                lemma_limbs_val_unfold(seq![s[0]]);
                lemma_limbs_val_upper(lo);
                assert(s[0] * pow2(0) == s[0]) by (nonlinear_arith)
                    requires
                        pow2(0) == 1,
                ;
                assert(limbs_val(s) == limbs_val(lo) + pow2(64) * limbs_val(s.skip(2)));
                assert(limbs_val(seq![s[0]]) == s[0]);
                assert(limbs_val(lo) == s[0] + s[1] * pow2(32));
                lemma_mod_multiples_vanish(
                    limbs_val(s.skip(2)) as int,
                    limbs_val(lo) as int,
                    pow2(64) as int,
                );
                lemma_small_mod(limbs_val(lo), pow2(64));
                assert(self@ % pow2(64) == limbs_val(lo));
            } else {
                lemma_limbs_val_upper(s);
                if n == 1 {
                    assert(s =~= seq![s[0]]);
                    assert(seq![s[0]].drop_last() =~= Seq::<u32>::empty());
                    lemma_limbs_val_unfold(seq![s[0]]);
                    assert(s[0] * pow2(0) == s[0]) by (nonlinear_arith)
                        requires
                            pow2(0) == 1,
                    ;
                    assert(limbs_val(s) == s[0]);
                    lemma_pow2_strictly_increases(32, 64);
                } else {
                    assert(limbs_val(s) == 0);
                }
                lemma_small_mod(limbs_val(s), pow2(64));
            }
        }
        r
    }
}

/// The value splits into the low limb and the rest.
pub proof fn lemma_limbs_val_front(s: Seq<u32>)
    requires
        s.len() > 0,
    ensures
        limbs_val(s) == s[0] + 0x1_0000_0000 * limbs_val(s.skip(1)),
{
    lemma_limbs_val_split(s, 1);
    let one = s.subrange(0, 1);
    assert(one.drop_last() =~= Seq::<u32>::empty());
    lemma_limbs_val_unfold(one);
    lemma2_to64();
    assert(s[0] * pow2(0) == s[0]) by (nonlinear_arith)
        requires
            pow2(0) == 1,
    ;
    assert(limbs_val(one) == s[0]);
}

/// Limb sequence scaled by one machine word.
pub(crate) fn limbs_mul_u32(x: &Vec<u32>, m: u32) -> (r: Vec<u32>)
    ensures
        limbs_val(r@) == limbs_val(x@) * m,
{
    let xl = x.len();
    let mut r: Vec<u32> = Vec::new();
    let mut carry: u32 = 0;
    let mut i: usize = 0;
    proof {
        lemma2_to64();
        assert(x@.subrange(0, 0) =~= Seq::<u32>::empty());
        assert(limbs_val(Seq::<u32>::empty()) == 0);
        assert(limbs_val(x@.subrange(0, 0)) * m == 0) by (nonlinear_arith)
            requires
                limbs_val(x@.subrange(0, 0)) == 0,
        ;
    }
    while i < xl
        invariant
            i <= xl,
            xl == x@.len(),
            r@.len() == i,
            limbs_val(r@) + carry * pow2(32 * i as nat) == limbs_val(x@.subrange(0, i as int))
                * m,
        decreases xl - i,
    {
        let ghost r0 = r@;
        let ghost c0 = carry;
        proof {
            assert((x@[i as int] as int) * (m as int) + c0 <= 0xffff_ffff_ffff_ffff)
                by (nonlinear_arith)
                requires
                    x@[i as int] <= 0xffff_ffffu32,
                    m <= 0xffff_ffffu32,
                    c0 <= 0xffff_ffffu32,
            ;
        }
        let t: u64 = (x[i] as u64) * (m as u64) + (carry as u64);
        let d: u32 = (t % 0x1_0000_0000) as u32;
        carry = (t / 0x1_0000_0000) as u32;
        r.push(d);
        proof {
            let p = pow2(32 * i as nat);
            let p1 = pow2(32 * (i + 1) as nat);
            lemma_pow2_adds(32 * i as nat, 32);
            lemma2_to64();
            lemma_limbs_val_push(r0, d);
            assert(x@.subrange(0, i + 1) =~= x@.subrange(0, i as int).push(x@[i as int]));
            lemma_limbs_val_push(x@.subrange(0, i as int), x@[i as int]);
            lemma_fundamental_div_mod(t as int, 0x1_0000_0000);
            assert((d + carry * 0x1_0000_0000) * p == d * p + carry * p1) by (nonlinear_arith)
                requires
                    p1 == p * 0x1_0000_0000,
            ;
            assert(((x@[i as int] * m) + c0) * p == (x@[i as int] * m) * p + c0 * p)
                by (nonlinear_arith);
            assert((limbs_val(x@.subrange(0, i as int)) + x@[i as int] * p) * m == limbs_val(
                x@.subrange(0, i as int),
            ) * m + (x@[i as int] * m) * p) by (nonlinear_arith);
        }
        i = i + 1;
    }
    proof {
        assert(x@.subrange(0, xl as int) =~= x@);
    }
    if carry > 0 {
        let ghost r0 = r@;
        r.push(carry);
        proof {
            lemma_limbs_val_push(r0, carry);
        }
    }
    r
}

/// Sum of two limb sequences.
pub(crate) fn limbs_add(x: &Vec<u32>, y: &Vec<u32>) -> (r: Vec<u32>)
    ensures
        limbs_val(r@) == limbs_val(x@) + limbs_val(y@),
{
    let xl = x.len();
    let yl = y.len();
    let n = if xl > yl {
        xl
    } else {
        yl
    };
    let ghost xe = x@ + Seq::new((n - xl) as nat, |j: int| 0u32);
    let ghost ye = y@ + Seq::new((n - yl) as nat, |j: int| 0u32);
    proof {
        lemma_limbs_val_zext(x@, (n - xl) as nat);
        lemma_limbs_val_zext(y@, (n - yl) as nat);
    }
    let mut r: Vec<u32> = Vec::new();
    let mut carry: u32 = 0;
    let mut i: usize = 0;
    while i < n
        invariant
            i <= n,
            carry <= 1,
            r@.len() == i,
            xl == x@.len(),
            yl == y@.len(),
            n >= xl && n >= yl && (n == xl || n == yl),
            xe.len() == n,
            ye.len() == n,
            forall|j: int| 0 <= j < xl ==> xe[j] == x@[j],
            forall|j: int| xl <= j < n ==> xe[j] == 0u32,
            forall|j: int| 0 <= j < yl ==> ye[j] == y@[j],
            forall|j: int| yl <= j < n ==> ye[j] == 0u32,
            limbs_val(r@) + carry * pow2(32 * i as nat) == limbs_val(xe.subrange(0, i as int))
                + limbs_val(ye.subrange(0, i as int)),
        decreases n - i,
    {
        let ghost r0 = r@;
        let ghost c0 = carry;
        let xi: u32 = if i < xl {
            x[i]
        } else {
            0
        };
        let yi: u32 = if i < yl {
            y[i]
        } else {
            0
        };
        let t: u64 = (xi as u64) + (yi as u64) + (carry as u64);
        let d: u32 = (t % 0x1_0000_0000) as u32;
        carry = (t / 0x1_0000_0000) as u32;
        r.push(d);
        proof {
            let p = pow2(32 * i as nat);
            let p1 = pow2(32 * (i + 1) as nat);
            lemma_pow2_adds(32 * i as nat, 32);
            lemma2_to64();
            lemma_limbs_val_push(r0, d);
            assert(xe.subrange(0, i + 1) =~= xe.subrange(0, i as int).push(xi));
            assert(ye.subrange(0, i + 1) =~= ye.subrange(0, i as int).push(yi));
            lemma_limbs_val_push(xe.subrange(0, i as int), xi);
            lemma_limbs_val_push(ye.subrange(0, i as int), yi);
            lemma_fundamental_div_mod(t as int, 0x1_0000_0000);
            assert((d + carry * 0x1_0000_0000) * p == d * p + carry * p1) by (nonlinear_arith)
                requires
                    p1 == p * 0x1_0000_0000,
            ;
            assert((xi + yi + c0) * p == xi * p + yi * p + c0 * p) by (nonlinear_arith);
        }
        i = i + 1;
    }
    proof {
        assert(xe.subrange(0, n as int) =~= xe);
        assert(ye.subrange(0, n as int) =~= ye);
    }
    if carry > 0 {
        let ghost r0 = r@;
        r.push(carry);
        proof {
            lemma_limbs_val_push(r0, carry);
        }
    }
    r
}

/// Limb sequence shifted up by one whole limb.
fn limbs_shl_limb(x: Vec<u32>) -> (r: Vec<u32>)
    ensures
        limbs_val(r@) == 0x1_0000_0000 * limbs_val(x@),
{
    if x.len() == 0 {
        return x;
    }
    let mut r: Vec<u32> = Vec::new();
    r.push(0);
    let mut i: usize = 0;
    while i < x.len()
        invariant
            i <= x@.len(),
            r@.len() == i + 1,
            r@[0] == 0u32,
            forall|j: int| 0 <= j < i ==> r@[j + 1] == x@[j],
        decreases x@.len() - i,
    {
        r.push(x[i]);
        i = i + 1;
    }
    proof {
        assert(r@.skip(1) =~= x@);
        lemma_limbs_val_front(r@);
    }
    r
}

/// Product of two limb sequences, accumulated from the top limb down.
pub(crate) fn limbs_mul(x: &Vec<u32>, a: &Vec<u32>) -> (r: Vec<u32>)
    ensures
        limbs_val(r@) == limbs_val(x@) * limbs_val(a@),
{
    let mut acc: Vec<u32> = Vec::new();
    proof {
        assert(a@.skip(a@.len() as int) =~= Seq::<u32>::empty());
        assert(limbs_val(Seq::<u32>::empty()) == 0);
        assert(limbs_val(x@) * limbs_val(a@.skip(a@.len() as int)) == 0) by (nonlinear_arith)
            requires
                limbs_val(a@.skip(a@.len() as int)) == 0,
        ;
    }
    let mut i: usize = a.len();
    while i > 0
        invariant
            i <= a@.len(),
            limbs_val(acc@) == limbs_val(x@) * limbs_val(a@.skip(i as int)),
        decreases i,
    {
        i = i - 1;
        let ghost pre = a@.skip(i as int + 1);
        let shifted = limbs_shl_limb(acc);
        let part = limbs_mul_u32(x, a[i]);
        acc = limbs_add(&shifted, &part);
        proof {
            let s = a@.skip(i as int);
            assert(s[0] == a@[i as int]);
            assert(s.skip(1) =~= pre);
            lemma_limbs_val_front(s);
            assert(limbs_val(x@) * limbs_val(s) == 0x1_0000_0000 * (limbs_val(x@) * limbs_val(
                pre,
            )) + limbs_val(x@) * a@[i as int]) by (nonlinear_arith)
                requires
                    limbs_val(s) == a@[i as int] + 0x1_0000_0000 * limbs_val(pre),
            ;
        }
    }
    proof {
        assert(a@.skip(0) =~= a@);
    }
    acc
}

/// Limb sequence reduced modulo `2^m2exp`.
#[verifier::rlimit(30)]
pub(crate) fn limbs_mod_pow2(x: Vec<u32>, m2exp: u64) -> (r: Vec<u32>)
    ensures
        limbs_val(r@) == limbs_val(x@) % pow2(m2exp as nat),
{
    let q: u64 = m2exp / 32;
    let rem: u64 = m2exp % 32;
    proof {
        lemma_pow2_pos(m2exp as nat);
    }
    if (x.len() as u64) <= q {
        proof {
            lemma_limbs_val_upper(x@);
            if 32 * x@.len() < m2exp as nat {
                lemma_pow2_strictly_increases(32 * x@.len(), m2exp as nat);
            }
            lemma_small_mod(limbs_val(x@), pow2(m2exp as nat));
        }
        return x;
    }
    let qs: usize = q as usize;
    let ghost orig = x@;
    let ghost low = orig.subrange(0, qs as int);
    let ghost high = orig.skip(qs as int);
    proof {
        lemma_limbs_val_split(orig, qs as int);
        lemma_limbs_val_upper(low);
        lemma_pow2_pos(32 * q as nat);
        assert(low.len() == q);
        assert(limbs_val(low) < pow2(32 * q as nat));
        assert(limbs_val(orig) as int == limbs_val(high) as int * (pow2(32 * q as nat) as int)
            + limbs_val(low) as int) by (nonlinear_arith)
            requires
                limbs_val(orig) == limbs_val(low) + pow2(32 * q as nat) * limbs_val(high),
        ;
        lemma_fundamental_div_mod_converse(
            limbs_val(orig) as int,
            pow2(32 * q as nat) as int,
            limbs_val(high) as int,
            limbs_val(low) as int,
        );
    }
    let mut r = x;
    if rem == 0 {
        r.truncate(qs);
        proof {
            assert(r@ =~= low);
        }
        return r;
    }
    r.truncate(qs + 1);
    let top = r[qs];
    let mm: u32 = 1u32 << (rem as u32);
    proof {
        lemma2_to64();
        if (rem as nat) < 31 {
            lemma_pow2_strictly_increases(rem as nat, 31);
        }
        lemma_u32_shl_is_mul(1u32, rem as u32);
    }
    let masked: u32 = top % mm;
    r.set(qs, masked);
    proof {
        let y = pow2(32 * q as nat);
        let z = pow2(rem as nat);
        lemma_pow2_adds(32 * q as nat, rem as nat);
        lemma_pow2_pos(rem as nat);
        // the high part reduces to its low limb modulo 2^rem
        lemma_limbs_val_front(high);
        assert(high[0] == top);
        lemma_pow2_adds(rem as nat, (32 - rem) as nat);
        assert(0x1_0000_0000 * limbs_val(high.skip(1)) == z * (pow2((32 - rem) as nat)
            * limbs_val(high.skip(1)))) by (nonlinear_arith)
            requires
                0x1_0000_0000 == z * pow2((32 - rem) as nat),
        ;
        lemma_mod_multiples_vanish(
            (pow2((32 - rem) as nat) * limbs_val(high.skip(1))) as int,
            top as int,
            z as int,
        );
        assert((limbs_val(high) as int) % (z as int) == (top as int) % (z as int));
        lemma_mod_breakdown(limbs_val(orig) as int, y as int, z as int);
        assert(r@ =~= low.push(masked));
        lemma_limbs_val_push(low, masked);
        assert(limbs_val(r@) == limbs_val(low) + masked * y);
        assert((masked as int) * (y as int) == (y as int) * ((top as int) % (z as int)))
            by (nonlinear_arith)
            requires
                masked as int == (top as int) % (z as int),
        ;
    }
    r
}

impl Mpz {
    /// Give up the handle and hand out its limbs.
    pub(crate) fn into_limbs(self) -> (r: Vec<u32>)
        ensures
            limbs_val(r@) == self@,
    {
        self.limbs
    }
}

impl PartialEq for Mpz {
    fn eq(&self, other: &Mpz) -> (r: bool) {
        matches!(self.cmp_value(other), Sign::Equal)
    }
}

impl vstd::std_specs::cmp::PartialEqSpecImpl for Mpz {
    open spec fn obeys_eq_spec() -> bool {
        true
    }

    open spec fn eq_spec(&self, other: &Mpz) -> bool {
        self@ == other@
    }
}

} // verus!
