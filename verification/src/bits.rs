//! Bit strings: the model in which the regrouping of values between bit
//! widths (8-bit bytes and 5-bit base32 digits) is specified and proved.
use vstd::prelude::*;

verus! {

/// The `w` lowest bits of `v`, most significant first.
pub open spec fn bits_of(v: u64, w: nat) -> Seq<bool> {
    Seq::new(w, |i: int| (v >> ((w - 1 - i) as u64)) & 1 == 1)
}

/// The `w`-bit groups of the values of `xs`, concatenated in order.
pub open spec fn to_bits(xs: Seq<u8>, w: nat) -> Seq<bool>
    decreases xs.len(),
{
    if xs.len() == 0 {
        Seq::empty()
    } else {
        to_bits(xs.drop_last(), w) + bits_of(xs.last() as u64, w)
    }
}

/// The number that a bit string denotes, most significant bit first.
pub open spec fn bits_value(b: Seq<bool>) -> u64
    decreases b.len(),
{
    if b.len() == 0 {
        0
    } else {
        (bits_value(b.drop_last()) << 1u64) | (if b.last() { 1u64 } else { 0u64 })
    }
}

/// A bit string of `n` zero bits.
pub open spec fn zeros(n: nat) -> Seq<bool> {
    Seq::new(n, |i: int| false)
}

/// Splits a bit string whose length is a multiple of `w` into its `w`-bit
/// groups, each read as a number.
pub open spec fn groups_of(b: Seq<bool>, w: nat) -> Seq<u8>
    decreases b.len(),
{
    if w == 0 || b.len() < w {
        Seq::empty()
    } else {
        groups_of(b.subrange(0, b.len() - w), w).push(
            bits_value(b.subrange(b.len() - w, b.len() as int)) as u8,
        )
    }
}

/// Every value of `xs` fits in `w` bits.
pub open spec fn all_fit(xs: Seq<u8>, w: nat) -> bool {
    forall|i: int| 0 <= i < xs.len() ==> ((#[trigger] xs[i]) as u64) >> (w as u64) == 0
}

pub proof fn lemma_shift_compose(v: u64, b: u64, s: u64)
    requires
        b <= s < 64,
    ensures
        ((v >> b) >> ((s - b) as u64)) & 1 == (v >> s) & 1,
{
    assert(b <= s < 64 ==> ((v >> b) >> ((s - b) as u64)) & 1 == (v >> s) & 1) by (bit_vector);
}

pub proof fn lemma_mask_bit(v: u64, b: u64, t: u64)
    requires
        t < b < 64,
    ensures
        ((v & ((1u64 << b) - 1) as u64) >> t) & 1 == (v >> t) & 1,
{
    assert(t < b < 64 ==> ((v & ((1u64 << b) - 1) as u64) >> t) & 1 == (v >> t) & 1)
        by (bit_vector);
}

/// The `a + b` low bits of `v` are its `a` bits above position `b`,
/// followed by its `b` lowest bits.
pub proof fn lemma_bits_split(v: u64, a: nat, b: nat)
    requires
        a + b <= 64,
        b < 64,
    ensures
        bits_of(v, a + b) =~= bits_of(v >> (b as u64), a) + bits_of(
            v & ((1u64 << (b as u64)) - 1) as u64,
            b,
        ),
{
    let lhs = bits_of(v, a + b);
    let hi = bits_of(v >> (b as u64), a);
    let lo = bits_of(v & ((1u64 << (b as u64)) - 1) as u64, b);
    assert forall|i: int| 0 <= i < a + b implies lhs[i] == (hi + lo)[i] by {
        let s = (a + b - 1 - i) as u64;
        if i < a {
            lemma_shift_compose(v, b as u64, s);
            assert(((a - 1 - i) as u64) == ((s - b) as u64));
        } else {
            lemma_mask_bit(v, b as u64, s);
            assert(((b - 1 - (i - a)) as u64) == s);
        }
    }
}

/// Appending `k` bits of `d` below `n` bits of `acc`.
pub proof fn lemma_bits_append(acc: u64, n: nat, d: u64, k: nat)
    requires
        n + k <= 64,
        k < 64,
        acc >> (n as u64) == 0,
        d >> (k as u64) == 0,
    ensures
        bits_of((acc << (k as u64)) | d, n + k) =~= bits_of(acc, n) + bits_of(d, k),
{
    let v = (acc << (k as u64)) | d;
    let nn = n as u64;
    let kk = k as u64;
    assert(nn + kk <= 64 && kk < 64 && acc >> nn == 0 && d >> kk == 0 ==> ((acc << kk) | d)
        >> kk == acc) by (bit_vector);
    assert(kk < 64 && d >> kk == 0 ==> ((acc << kk) | d) & ((1u64 << kk) - 1) as u64 == d)
        by (bit_vector);
    lemma_bits_split(v, n, k);
}

/// `bits_of` of a shorter width only reads the lower bits.
pub proof fn lemma_bits_of_zero(k: nat)
    ensures
        bits_of(0, k) =~= zeros(k),
{
    assert forall|i: int| 0 <= i < k implies bits_of(0, k)[i] == zeros(k)[i] by {
        let s = (k - 1 - i) as u64;
        assert((0u64 >> s) & 1 == 0) by (bit_vector);
    }
}

/// Reading back the bits of a value gives the value.
pub proof fn lemma_bits_value_of(x: u64, w: nat)
    requires
        w < 64,
        x >> (w as u64) == 0,
    ensures
        bits_value(bits_of(x, w)) == x,
    decreases w,
{
    if w == 0 {
        assert(x >> 0u64 == x) by (bit_vector);
    } else {
        let ww = w as u64;
        lemma_bits_split(x, (w - 1) as nat, 1);
        let hi = x >> 1u64;
        assert(ww < 64 && ww >= 1 && x >> ww == 0 ==> (x >> 1u64) >> ((ww - 1) as u64) == 0)
            by (bit_vector);
        lemma_bits_value_of(hi, (w - 1) as nat);
        let b = bits_of(x, w);
        assert(b.drop_last() =~= bits_of(hi, (w - 1) as nat));
        assert(b.last() == (((x & ((1u64 << 1u64) - 1) as u64) >> 0u64) & 1 == 1));
        assert(((x >> 1u64) << 1u64) | (if ((x & ((1u64 << 1u64) - 1) as u64) >> 0u64) & 1 == 1 {
            1u64
        } else {
            0u64
        }) == x) by (bit_vector);
    }
}

/// A bit string of fewer than 64 bits denotes a number below 2 to its length.
pub proof fn lemma_bits_value_bound(b: Seq<bool>)
    requires
        b.len() < 64,
    ensures
        bits_value(b) >> (b.len() as u64) == 0,
    decreases b.len(),
{
    if b.len() > 0 {
        let p = b.drop_last();
        lemma_bits_value_bound(p);
        let v = bits_value(p);
        let n = p.len() as u64;
        let l: u64 = if b.last() { 1 } else { 0 };
        assert(bits_value(b) == (v << 1u64) | l);
        assert(b.len() as u64 == (n + 1) as u64);
        assert(n < 63 && v >> n == 0 && l <= 1 ==> ((v << 1u64) | l) >> ((n + 1) as u64) == 0)
            by (bit_vector);
    } else {
        assert(0u64 >> 0u64 == 0) by (bit_vector);
    }
}

/// The bits of the number a bit string denotes are that bit string.
pub proof fn lemma_bits_of_value(b: Seq<bool>)
    requires
        b.len() < 64,
    ensures
        bits_of(bits_value(b), b.len()) =~= b,
    decreases b.len(),
{
    if b.len() > 0 {
        let p = b.drop_last();
        lemma_bits_of_value(p);
        lemma_bits_value_bound(p);
        let v = bits_value(p);
        let n = p.len() as u64;
        let l: u64 = if b.last() { 1 } else { 0 };
        let x = (v << 1u64) | l;
        assert(x == bits_value(b));
        assert(l >> 1u64 == 0) by (bit_vector)
            requires
                l <= 1,
        ;
        lemma_bits_append(v, p.len(), l, 1);
        assert(bits_of(l, 1)[0] == b.last()) by {
            assert((l >> 0u64) & 1 == l) by (bit_vector)
                requires
                    l <= 1,
            ;
        }
        assert(b =~= p + bits_of(l, 1));
    }
}

pub proof fn lemma_to_bits_len(xs: Seq<u8>, w: nat)
    ensures
        to_bits(xs, w).len() == xs.len() * w,
    decreases xs.len(),
{
    if xs.len() > 0 {
        lemma_to_bits_len(xs.drop_last(), w);
        assert(xs.len() * w == (xs.len() - 1) * w + w) by (nonlinear_arith);
    }
}

/// Grouping the bits of bounded values gives the values back.
pub proof fn lemma_groups_of_to_bits(xs: Seq<u8>, w: nat)
    requires
        1 <= w <= 8,
        all_fit(xs, w),
    ensures
        groups_of(to_bits(xs, w), w) =~= xs,
    decreases xs.len(),
{
    if xs.len() > 0 {
        let p = xs.drop_last();
        let b = to_bits(xs, w);
        lemma_to_bits_len(xs, w);
        lemma_to_bits_len(p, w);
        assert(xs.len() * w >= w) by (nonlinear_arith)
            requires
                xs.len() >= 1,
        ;
        assert(b.subrange(0, b.len() - w) =~= to_bits(p, w));
        assert(b.subrange(b.len() - w, b.len() as int) =~= bits_of(xs.last() as u64, w));
        assert(all_fit(p, w)) by {
            assert forall|i: int| 0 <= i < p.len() implies ((#[trigger] p[i]) as u64) >> (
            w as u64) == 0 by {
                assert(p[i] == xs[i]);
            }
        }
        lemma_groups_of_to_bits(p, w);
        assert(((xs[xs.len() - 1]) as u64) >> (w as u64) == 0);
        lemma_bits_value_of(xs.last() as u64, w);
    }
}

/// Spreading the groups of a bit string back into bits gives the bit string.
pub proof fn lemma_to_bits_groups_of(b: Seq<bool>, w: nat)
    requires
        1 <= w <= 8,
        b.len() % w == 0,
    ensures
        to_bits(groups_of(b, w), w) =~= b,
        groups_of(b, w).len() * w == b.len(),
        all_fit(groups_of(b, w), w),
    decreases b.len(),
{
    if b.len() >= w {
        let p = b.subrange(0, b.len() - w);
        let t = b.subrange(b.len() - w, b.len() as int);
        assert(p.len() % w == 0) by {
            vstd::arithmetic::div_mod::lemma_mod_sub_multiples_vanish(b.len() as int, w as int);
        }
        lemma_to_bits_groups_of(p, w);
        lemma_bits_value_bound(t);
        lemma_bits_of_value(t);
        let v = bits_value(t);
        let ww = w as u64;
        assert(ww <= 8 && v >> ww == 0 ==> (v as u8) as u64 == v) by (bit_vector);
        let g = groups_of(b, w);
        assert(g.drop_last() =~= groups_of(p, w));
        let gl = groups_of(p, w).len();
        assert((gl + 1) * w == gl * w + w) by (nonlinear_arith);
        assert(b =~= p + t);
        assert(all_fit(g, w)) by {
            assert forall|i: int| 0 <= i < g.len() implies ((#[trigger] g[i]) as u64) >> (
            w as u64) == 0 by {
                if i < g.len() - 1 {
                    assert(g[i] == groups_of(p, w)[i]);
                }
            }
        }
    } else {
        assert(b.len() == 0) by {
            if b.len() > 0 {
                vstd::arithmetic::div_mod::lemma_small_mod(b.len(), w);
            }
        }
        assert(b =~= Seq::<bool>::empty());
    }
}

} // verus!
