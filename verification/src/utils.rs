//! Regrouping of bits between widths, and the checksum of the address format.
use vstd::prelude::*;
use crate::bits::{
    all_fit, bits_of, bits_value, groups_of, lemma_bits_append, lemma_bits_of_zero,
    lemma_bits_split, lemma_bits_value_of, lemma_groups_of_to_bits, lemma_to_bits_len, to_bits,
    zeros,
};
use crate::types::{DecodingError, SpecDecodingError};

verus! {

/// A bit string padded with zero bits up to a multiple of `w`.
pub open spec fn padded_bits(t: Seq<bool>, w: nat) -> Seq<bool> {
    if t.len() % w == 0 {
        t
    } else {
        t + zeros((w - t.len() % w) as nat)
    }
}

/// The values of `data`, each of `inbits` bits, regrouped into values of
/// `outbits` bits. With `pad`, the last group is filled up with zero bits;
/// without, the bits that make no whole group must be fewer than `inbits`
/// and all zero, and they are dropped.
pub open spec fn spec_convert_bits(data: Seq<u8>, inbits: nat, outbits: nat, pad: bool) -> Result<
    Seq<u8>,
    SpecDecodingError,
> {
    let t = to_bits(data, inbits);
    let r = t.len() % outbits;
    if pad {
        Ok(groups_of(padded_bits(t, outbits), outbits))
    } else {
        let tail = t.subrange(t.len() - r, t.len() as int);
        if r >= inbits || bits_value(tail) != 0 {
            Err(
                SpecDecodingError::InvalidPadding {
                    from_bits: inbits as u8,
                    padding_bits: r as u8,
                    padding: bits_value(tail) as u16,
                },
            )
        } else {
            Ok(groups_of(t.subrange(0, t.len() - r), outbits))
        }
    }
}

/// Regroups values of `inbits` bits into values of `outbits` bits, most
/// significant bits first.
pub fn convert_bits(data: &[u8], inbits: u8, outbits: u8, pad: bool) -> (res: Result<
    Vec<u8>,
    DecodingError,
>)
    requires
        1 <= inbits <= 8,
        1 <= outbits <= 8,
        all_fit(data@, inbits as nat),
    ensures
        match res {
            Ok(v) => spec_convert_bits(data@, inbits as nat, outbits as nat, pad) == Ok::<
                Seq<u8>,
                SpecDecodingError,
            >(v@),
            Err(e) => spec_convert_bits(data@, inbits as nat, outbits as nat, pad) == Err::<
                Seq<u8>,
                SpecDecodingError,
            >(e@),
        },
        res matches Ok(v) ==> all_fit(v@, outbits as nat),
{
    let mut ret: Vec<u8> = Vec::new();
    // The bits read but not yet written out, `num` of them.
    let mut acc: u64 = 0;
    let mut num: u8 = 0;
    let ghost ib = inbits as nat;
    let ghost ob = outbits as nat;
    let mut i: usize = 0;
    proof {
        assert(0u64 >> 0u64 == 0) by (bit_vector);
        assert(data@.take(0) =~= Seq::<u8>::empty());
        assert(bits_of(0, 0) =~= Seq::<bool>::empty());
    }
    while i < data.len()
        invariant
            i <= data.len(),
            1 <= inbits <= 8,
            1 <= outbits <= 8,
            ib == inbits as nat,
            ob == outbits as nat,
            all_fit(data@, ib),
            num < outbits,
            acc >> (num as u64) == 0,
            all_fit(ret@, ob),
            to_bits(data@.take(i as int), ib) == to_bits(ret@, ob) + bits_of(acc, num as nat),
        decreases data.len() - i,
    {
        let d = data[i];
        proof {
            assert(data@.take(i + 1).drop_last() =~= data@.take(i as int));
            assert(data@.take(i + 1).last() == d);
            assert((d as u64) >> (inbits as u64) == 0);
            lemma_bits_append(acc, num as nat, d as u64, ib);
            assert(to_bits(data@.take(i + 1), ib) =~= to_bits(ret@, ob) + bits_of(
                (acc << (inbits as u64)) | (d as u64),
                (num + inbits) as nat,
            ));
            let nn = num as u64;
            let kk = inbits as u64;
            let dd = d as u64;
            assert(nn < 8 && kk <= 8 && acc >> nn == 0 && dd >> kk == 0 ==> ((acc << kk) | dd)
                >> ((nn + kk) as u64) == 0) by (bit_vector);
        }
        acc = (acc << (inbits as u64)) | (d as u64);
        num = num + inbits;
        while num >= outbits
            invariant
                1 <= inbits <= 8,
                1 <= outbits <= 8,
                ob == outbits as nat,
                ib == inbits as nat,
                num < outbits + inbits,
                acc >> (num as u64) == 0,
                all_fit(ret@, ob),
                to_bits(data@.take(i + 1), ib) == to_bits(ret@, ob) + bits_of(acc, num as nat),
            decreases num,
        {
            let k: u8 = num - outbits;
            assert(1u64 << (k as u64) >= 1) by (bit_vector)
                requires
                    k < 8,
            ;
            let g: u64 = acc >> (k as u64);
            let rest: u64 = acc & ((1u64 << (k as u64)) - 1);
            proof {
                lemma_bits_split(acc, ob, k as nat);
                let nn = num as u64;
                let kk = k as u64;
                let oo = outbits as u64;
                assert(nn == kk + oo && oo <= 8 && kk < 8 && acc >> nn == 0 ==> (acc >> kk) >> oo
                    == 0 && (acc >> kk) < 256) by (bit_vector);
                assert(kk < 8 ==> (acc & ((1u64 << kk) - 1) as u64) >> kk == 0) by (bit_vector);
                assert((g as u8) as u64 == g);
            }
            let ghost old_ret = ret@;
            ret.push(g as u8);
            proof {
                assert(ret@.drop_last() =~= old_ret);
                assert(to_bits(ret@, ob) =~= to_bits(old_ret, ob) + bits_of(g, ob));
                assert forall|j: int| 0 <= j < ret@.len() implies ((#[trigger] ret@[j]) as u64)
                    >> (ob as u64) == 0 by {
                    if j < old_ret.len() {
                        assert(ret@[j] == old_ret[j]);
                    }
                }
            }
            acc = rest;
            num = k;
        }
        i = i + 1;
    }
    proof {
        assert(data@.take(data.len() as int) =~= data@);
        lemma_to_bits_len(data@, ib);
        lemma_to_bits_len(ret@, ob);
        let t = to_bits(data@, ib);
        assert(t.len() == ret@.len() * ob + num);
        vstd::arithmetic::div_mod::lemma_fundamental_div_mod_converse(
            t.len() as int,
            ob as int,
            ret@.len() as int,
            num as int,
        );
        assert(t.len() % ob == num);
    }
    if pad {
        if num > 0 {
            let p: u8 = outbits - num;
            let g: u64 = acc << (p as u64);
            proof {
                assert(0u64 >> (p as u64) == 0) by (bit_vector)
                    requires
                        p < 8,
                ;
                lemma_bits_append(acc, num as nat, 0, p as nat);
                lemma_bits_of_zero(p as nat);
                let nn = num as u64;
                let pp = p as u64;
                assert(nn + pp <= 8 && acc >> nn == 0 ==> (acc << pp) | 0 == acc << pp && (acc
                    << pp) >> (nn + pp) as u64 == 0 && (acc << pp) < 256) by (bit_vector);
                assert((g as u8) as u64 == g);
            }
            let ghost old_ret = ret@;
            ret.push(g as u8);
            proof {
                assert(ret@.drop_last() =~= old_ret);
                assert(to_bits(ret@, ob) =~= to_bits(old_ret, ob) + bits_of(g, ob));
                assert(to_bits(ret@, ob) =~= padded_bits(to_bits(data@, ib), ob));
                assert forall|j: int| 0 <= j < ret@.len() implies ((#[trigger] ret@[j]) as u64)
                    >> (ob as u64) == 0 by {
                    if j < old_ret.len() {
                        assert(ret@[j] == old_ret[j]);
                    }
                }
            }
        } else {
            proof {
                assert(bits_of(acc, 0) =~= Seq::<bool>::empty());
                assert(to_bits(ret@, ob) =~= padded_bits(to_bits(data@, ib), ob));
            }
        }
        proof {
            lemma_groups_of_to_bits(ret@, ob);
        }
        Ok(ret)
    } else {
        let ghost t = to_bits(data@, ib);
        proof {
            let r = t.len() % ob;
            assert(t.subrange(t.len() - r, t.len() as int) =~= bits_of(acc, num as nat));
            assert(t.subrange(0, t.len() - r) =~= to_bits(ret@, ob));
            lemma_bits_value_of(acc, num as nat);
            lemma_groups_of_to_bits(ret@, ob);
            let nn = num as u64;
            assert(nn < 8 && acc >> nn == 0 ==> acc < 256) by (bit_vector);
        }
        if num >= inbits || acc != 0 {
            Err(DecodingError::InvalidPadding { from_bits: inbits, padding_bits: num, padding: acc as u16 })
        } else {
            Ok(ret)
        }
    }
}

/// One step of the checksum: shift in the 5-bit digit `d`, reducing by the
/// generator of the code.
pub open spec fn polymod_step(c: u64, d: u8) -> u64 {
    let c0 = (c >> 35u64) as u8;
    let c1 = ((c & 0x07ffffffffu64) << 5u64) ^ (d as u64);
    let c2 = if c0 & 0x01u8 != 0 { c1 ^ 0x98f2bc8e61u64 } else { c1 };
    let c3 = if c0 & 0x02u8 != 0 { c2 ^ 0x79b76d99e2u64 } else { c2 };
    let c4 = if c0 & 0x04u8 != 0 { c3 ^ 0xf33e5fb3c4u64 } else { c3 };
    let c5 = if c0 & 0x08u8 != 0 { c4 ^ 0xae2eabe2a8u64 } else { c4 };
    if c0 & 0x10u8 != 0 { c5 ^ 0x1e4f43e470u64 } else { c5 }
}

/// The checksum state after reading `v` from the start state 1.
pub open spec fn polymod_state(v: Seq<u8>) -> u64
    decreases v.len(),
{
    if v.len() == 0 {
        1
    } else {
        polymod_step(polymod_state(v.drop_last()), v.last())
    }
}

/// The checksum of a sequence of digits.
pub open spec fn spec_polymod(v: Seq<u8>) -> u64 {
    polymod_state(v) ^ 1u64
}

/// The checksum of a sequence of digits (the BCH code of the address format).
pub fn polymod(v: &[u8]) -> (r: u64)
    ensures
        r == spec_polymod(v@),
{
    let mut c: u64 = 1;
    let mut i: usize = 0;
    proof {
        assert(v@.take(0) =~= Seq::<u8>::empty());
    }
    while i < v.len()
        invariant
            i <= v.len(),
            c == polymod_state(v@.take(i as int)),
        decreases v.len() - i,
    {
        let d = v[i];
        let c0: u8 = (c >> 35u64) as u8;
        c = ((c & 0x07ffffffffu64) << 5u64) ^ (d as u64);
        if c0 & 0x01u8 != 0 {
            c = c ^ 0x98f2bc8e61u64;
        }
        if c0 & 0x02u8 != 0 {
            c = c ^ 0x79b76d99e2u64;
        }
        if c0 & 0x04u8 != 0 {
            c = c ^ 0xf33e5fb3c4u64;
        }
        if c0 & 0x08u8 != 0 {
            c = c ^ 0xae2eabe2a8u64;
        }
        if c0 & 0x10u8 != 0 {
            c = c ^ 0x1e4f43e470u64;
        }
        proof {
            assert(v@.take(i + 1).drop_last() =~= v@.take(i as int));
        }
        i = i + 1;
    }
    proof {
        assert(v@.take(v.len() as int) =~= v@);
    }
    c ^ 1u64
}

/// The checksum digits of a prefix: the low five bits of each character,
/// then a zero separator.
pub open spec fn spec_expand_prefix(prefix: Seq<char>) -> Seq<u8> {
    prefix.map_values(|c: char| ((c as u32) as u8) & 0x1fu8).push(0u8)
}

/// Expands a prefix into checksum digits.
pub fn expand_prefix(prefix: &[char]) -> (r: Vec<u8>)
    ensures
        r@ == spec_expand_prefix(prefix@),
{
    let mut r: Vec<u8> = Vec::new();
    let mut i: usize = 0;
    while i < prefix.len()
        invariant
            i <= prefix.len(),
            r@ == prefix@.take(i as int).map_values(|c: char| ((c as u32) as u8) & 0x1fu8),
        decreases prefix.len() - i,
    {
        let c = prefix[i];
        r.push(((c as u32) as u8) & 0x1fu8);
        proof {
            assert(prefix@.take(i + 1) =~= prefix@.take(i as int).push(c));
        }
        i = i + 1;
    }
    proof {
        assert(prefix@.take(prefix.len() as int) =~= prefix@);
    }
    r.push(0u8);
    r
}

/// The checksum state after reading `v` from the state `s`.
pub open spec fn feed(s: u64, v: Seq<u8>) -> u64
    decreases v.len(),
{
    if v.len() == 0 {
        s
    } else {
        polymod_step(feed(s, v.drop_last()), v.last())
    }
}

/// Digits read as one number, five bits each, first digit highest.
pub open spec fn pack5(ds: Seq<u8>) -> u64
    decreases ds.len(),
{
    if ds.len() == 0 {
        0
    } else {
        (pack5(ds.drop_last()) << 5u64) ^ (ds.last() as u64)
    }
}

/// The eight digits that write a checksum, most significant first.
pub open spec fn checksum_digits(c: u64) -> Seq<u8> {
    Seq::new(8, |i: int| ((c >> ((5 * (7 - i)) as u64)) & 31u64) as u8)
}

/// A sequence of `n` zero digits.
pub open spec fn zero_digits(n: nat) -> Seq<u8> {
    Seq::new(n, |i: int| 0u8)
}

proof fn lemma_step_bound(c: u64, d: u8)
    ensures
        polymod_step(c, d) >> 40u64 == 0,
{
    assert(polymod_step(c, d) >> 40u64 == 0) by (bit_vector);
}

/// Every checksum state fits in 40 bits.
pub proof fn lemma_state_bound(v: Seq<u8>)
    ensures
        polymod_state(v) >> 40u64 == 0,
    decreases v.len(),
{
    if v.len() == 0 {
        assert(1u64 >> 40u64 == 0) by (bit_vector);
    } else {
        lemma_step_bound(polymod_state(v.drop_last()), v.last());
    }
}

/// Reading `a + b` is reading `a`, then `b`.
pub proof fn lemma_state_append(a: Seq<u8>, b: Seq<u8>)
    ensures
        polymod_state(a + b) == feed(polymod_state(a), b),
    decreases b.len(),
{
    if b.len() == 0 {
        assert(a + b =~= a);
    } else {
        lemma_state_append(a, b.drop_last());
        assert((a + b).drop_last() =~= a + b.drop_last());
        assert((a + b).last() == b.last());
    }
}

/// A digit that has not yet reached the top five bits does not take part in
/// the reduction: it passes through the step unchanged, shifted.
proof fn lemma_step_split(a: u64, e: u64, d: u8)
    requires
        a >> 40u64 == 0,
        e >> 35u64 == 0,
        d < 32,
    ensures
        polymod_step(a ^ e, d) == polymod_step(a, 0) ^ ((e << 5u64) ^ (d as u64)),
{
    assert(a >> 40u64 == 0 && e >> 35u64 == 0 && d < 32 ==> polymod_step(a ^ e, d)
        == polymod_step(a, 0) ^ ((e << 5u64) ^ (d as u64))) by (bit_vector);
}

proof fn lemma_pack5_bound(ds: Seq<u8>)
    requires
        ds.len() <= 8,
        forall|i: int| 0 <= i < ds.len() ==> ds[i] < 32,
    ensures
        pack5(ds) >> ((5 * ds.len()) as u64) == 0,
    decreases ds.len(),
{
    if ds.len() == 0 {
        assert(0u64 >> 0u64 == 0) by (bit_vector);
    } else {
        let p = ds.drop_last();
        lemma_pack5_bound(p);
        let m = (5 * p.len()) as u64;
        let v = pack5(p);
        let d = ds.last() as u64;
        assert(ds.last() == ds[ds.len() - 1]);
        assert(m <= 35 && v >> m == 0 && d < 32 ==> ((v << 5u64) ^ d) >> ((m + 5) as u64) == 0)
            by (bit_vector);
    }
}

/// Within eight steps, digits fed in enter the state by exclusive or, as
/// if zeros had been fed in.
proof fn lemma_feed_digits(a: u64, ds: Seq<u8>)
    requires
        a >> 40u64 == 0,
        ds.len() <= 8,
        forall|i: int| 0 <= i < ds.len() ==> ds[i] < 32,
    ensures
        feed(a, ds) == feed(a, zero_digits(ds.len())) ^ pack5(ds),
        feed(a, zero_digits(ds.len())) >> 40u64 == 0,
    decreases ds.len(),
{
    if ds.len() == 0 {
        assert(a ^ 0u64 == a) by (bit_vector);
    } else {
        let p = ds.drop_last();
        let n = p.len();
        lemma_feed_digits(a, p);
        lemma_pack5_bound(p);
        let z = feed(a, zero_digits(n));
        let e = pack5(p);
        let m = (5 * n) as u64;
        assert(m <= 35 && e >> m == 0 ==> e >> 35u64 == 0) by (bit_vector);
        assert(ds.last() == ds[ds.len() - 1]);
        lemma_step_split(z, e, ds.last());
        assert(zero_digits(ds.len()).drop_last() =~= zero_digits(n));
        assert(zero_digits(ds.len()).last() == 0u8);
        lemma_step_bound(z, 0);
    }
}

proof fn lemma_pack5_checksum_digits(c: u64)
    requires
        c >> 40u64 == 0,
    ensures
        pack5(checksum_digits(c)) == c,
{
    let ds = checksum_digits(c);
    reveal_with_fuel(pack5, 9);
    assert(ds.take(1).drop_last() =~= ds.take(0));
    assert(ds.take(2).drop_last() =~= ds.take(1));
    assert(ds.take(3).drop_last() =~= ds.take(2));
    assert(ds.take(4).drop_last() =~= ds.take(3));
    assert(ds.take(5).drop_last() =~= ds.take(4));
    assert(ds.take(6).drop_last() =~= ds.take(5));
    assert(ds.take(7).drop_last() =~= ds.take(6));
    assert(ds.drop_last() =~= ds.take(7));
    assert(ds.take(0) =~= Seq::<u8>::empty());
    let d0 = ((c >> 35u64) & 31u64) as u8;
    let d1 = ((c >> 30u64) & 31u64) as u8;
    let d2 = ((c >> 25u64) & 31u64) as u8;
    let d3 = ((c >> 20u64) & 31u64) as u8;
    let d4 = ((c >> 15u64) & 31u64) as u8;
    let d5 = ((c >> 10u64) & 31u64) as u8;
    let d6 = ((c >> 5u64) & 31u64) as u8;
    let d7 = ((c >> 0u64) & 31u64) as u8;
    assert(ds[0] == d0 && ds[1] == d1 && ds[2] == d2 && ds[3] == d3);
    assert(ds[4] == d4 && ds[5] == d5 && ds[6] == d6 && ds[7] == d7);
    assert(c >> 40u64 == 0 ==> ((((((((((((((((0u64 << 5u64) ^ (((c >> 35u64) & 31u64) as u8)
        as u64) << 5u64) ^ (((c >> 30u64) & 31u64) as u8) as u64) << 5u64) ^ (((c >> 25u64)
        & 31u64) as u8) as u64) << 5u64) ^ (((c >> 20u64) & 31u64) as u8) as u64) << 5u64) ^ ((
    (c >> 15u64) & 31u64) as u8) as u64) << 5u64) ^ (((c >> 10u64) & 31u64) as u8) as u64)
        << 5u64) ^ (((c >> 5u64) & 31u64) as u8) as u64) << 5u64) ^ (((c >> 0u64) & 31u64) as u8)
        as u64) == c) by (bit_vector);
}

/// The checksum law: writing the checksum of `data` followed by eight zero
/// digits in place of those zeros makes the checksum of the whole zero.
pub proof fn lemma_checksum_verifies(data: Seq<u8>)
    ensures
        ({
            let c = spec_polymod(data + zero_digits(8));
            spec_polymod(data + checksum_digits(c)) == 0
        }),
{
    let a = polymod_state(data);
    lemma_state_bound(data);
    let z = feed(a, zero_digits(8));
    lemma_state_append(data, zero_digits(8));
    let c = z ^ 1u64;
    assert(spec_polymod(data + zero_digits(8)) == c);
    lemma_feed_digits(a, zero_digits(8));
    assert(z >> 40u64 == 0 ==> (z ^ 1u64) >> 40u64 == 0) by (bit_vector);
    let ds = checksum_digits(c);
    assert forall|i: int| 0 <= i < ds.len() implies ds[i] < 32 by {
        let k = (5 * (7 - i)) as u64;
        assert((((c >> k) & 31u64) as u8) < 32) by (bit_vector);
    }
    lemma_feed_digits(a, ds);
    lemma_pack5_checksum_digits(c);
    lemma_state_append(data, ds);
    assert(z ^ (z ^ 1u64) ^ 1u64 == 0) by (bit_vector);
}

proof fn lemma_checksum_digits_pack5(ds: Seq<u8>)
    requires
        ds.len() == 8,
        forall|i: int| 0 <= i < 8 ==> ds[i] < 32,
    ensures
        checksum_digits(pack5(ds)) == ds,
{
    reveal_with_fuel(pack5, 9);
    assert(ds.take(1).drop_last() =~= ds.take(0));
    assert(ds.take(2).drop_last() =~= ds.take(1));
    assert(ds.take(3).drop_last() =~= ds.take(2));
    assert(ds.take(4).drop_last() =~= ds.take(3));
    assert(ds.take(5).drop_last() =~= ds.take(4));
    assert(ds.take(6).drop_last() =~= ds.take(5));
    assert(ds.take(7).drop_last() =~= ds.take(6));
    assert(ds.drop_last() =~= ds.take(7));
    assert(ds.take(0) =~= Seq::<u8>::empty());
    let d0 = ds[0];
    let d1 = ds[1];
    let d2 = ds[2];
    let d3 = ds[3];
    let d4 = ds[4];
    let d5 = ds[5];
    let d6 = ds[6];
    let d7 = ds[7];
    assert(d0 < 32 && d1 < 32 && d2 < 32 && d3 < 32 && d4 < 32 && d5 < 32 && d6 < 32 && d7 < 32);
    let p = pack5(ds);
    assert(p == ((((((((((((((((0u64 << 5u64) ^ (d0 as u64)) << 5u64) ^ (d1 as u64)) << 5u64) ^ (
    d2 as u64)) << 5u64) ^ (d3 as u64)) << 5u64) ^ (d4 as u64)) << 5u64) ^ (d5 as u64)) << 5u64)
        ^ (d6 as u64)) << 5u64) ^ (d7 as u64)));
    assert(d0 < 32 && d1 < 32 && d2 < 32 && d3 < 32 && d4 < 32 && d5 < 32 && d6 < 32 && d7 < 32
        && p == ((((((((((((((((0u64 << 5u64) ^ (d0 as u64)) << 5u64) ^ (d1 as u64)) << 5u64) ^ (
    d2 as u64)) << 5u64) ^ (d3 as u64)) << 5u64) ^ (d4 as u64)) << 5u64) ^ (d5 as u64)) << 5u64)
        ^ (d6 as u64)) << 5u64) ^ (d7 as u64)) ==> ((p >> 35u64) & 31u64) as u8 == d0 && ((p
        >> 30u64) & 31u64) as u8 == d1 && ((p >> 25u64) & 31u64) as u8 == d2 && ((p >> 20u64)
        & 31u64) as u8 == d3 && ((p >> 15u64) & 31u64) as u8 == d4 && ((p >> 10u64) & 31u64) as u8
        == d5 && ((p >> 5u64) & 31u64) as u8 == d6 && ((p >> 0u64) & 31u64) as u8 == d7)
        by (bit_vector);
    assert(checksum_digits(p) =~= ds);
}

/// The checksum digits are the only eight digits that make the checksum of
/// the whole zero.
pub proof fn lemma_checksum_unique(data: Seq<u8>, c8: Seq<u8>)
    requires
        c8.len() == 8,
        forall|i: int| 0 <= i < 8 ==> c8[i] < 32,
        spec_polymod(data + c8) == 0,
    ensures
        c8 == checksum_digits(spec_polymod(data + zero_digits(8))),
{
    let a = polymod_state(data);
    lemma_state_bound(data);
    lemma_state_append(data, c8);
    lemma_state_append(data, zero_digits(8));
    lemma_feed_digits(a, c8);
    let z = feed(a, zero_digits(8));
    let pk = pack5(c8);
    assert(z ^ pk ^ 1u64 == 0u64 ==> pk == z ^ 1u64) by (bit_vector);
    lemma_checksum_digits_pack5(c8);
}

} // verus!
