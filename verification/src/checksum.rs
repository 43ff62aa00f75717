//! The 30-bit polynomial checksum that guards an encoded address.
//!
//! The checksum is computed over GF(2) with a fixed generator: the tag is
//! first expanded into 5-bit groups (the high 3 bits of every character,
//! a zero group, then the low 5 bits of every character), the data groups
//! follow, and six zero groups leave room for the checksum itself. The
//! final constant 1 is folded in so that a string verifies exactly when
//! the polynomial remainder over tag and body equals 1.

use vstd::prelude::*;

verus! {

/// One round of the polynomial division: shift five bits in and fold the
/// generator's terms for every bit that falls out at the top.
pub open spec fn polymod_step(chk: u32, v: u8) -> u32 {
    let base = ((chk & 0x1ffffff) << 5) ^ (v as u32);
    let t = chk >> 25;
    let s1 = if t & 1 == 1 {
        base ^ 0x3b6a57b2u32
    } else {
        base
    };
    let s2 = if t & 2 == 2 {
        s1 ^ 0x26508e6du32
    } else {
        s1
    };
    let s3 = if t & 4 == 4 {
        s2 ^ 0x1ea119fau32
    } else {
        s2
    };
    let s4 = if t & 8 == 8 {
        s3 ^ 0x3d4233ddu32
    } else {
        s3
    };
    if t & 16 == 16 {
        s4 ^ 0x2a1462b3u32
    } else {
        s4
    }
}

/// The polynomial remainder after folding every group of `vs` into `chk`.
pub open spec fn polymod_from(chk: u32, vs: Seq<u8>) -> u32
    decreases vs.len(),
{
    if vs.len() == 0 {
        chk
    } else {
        polymod_from(polymod_step(chk, vs[0]), vs.drop_first())
    }
}

/// The polynomial remainder of `vs`, seeded with 1.
pub open spec fn polymod(vs: Seq<u8>) -> u32 {
    polymod_from(1, vs)
}

/// The tag's contribution to the checksum: the high 3 bits of every
/// character, a zero separator group, then the low 5 bits of every
/// character.
pub open spec fn hrp_expand(tag: Seq<u8>) -> Seq<u8> {
    Seq::new(tag.len(), |i: int| tag[i] >> 5) + seq![0u8] + Seq::new(
        tag.len(),
        |i: int| tag[i] & 31,
    )
}

/// `n` zero groups.
pub open spec fn zeros(n: nat) -> Seq<u8> {
    Seq::new(n, |i: int| 0u8)
}

/// 32 to the power `n`.
pub open spec fn p32(n: nat) -> nat
    decreases n,
{
    if n == 0 {
        1
    } else {
        32 * p32((n - 1) as nat)
    }
}

/// The value of a big-endian base-32 digit string.
pub open spec fn packn(vs: Seq<u8>) -> nat
    decreases vs.len(),
{
    if vs.len() == 0 {
        0
    } else {
        (vs[0] as nat) * p32((vs.len() - 1) as nat) + packn(vs.drop_first())
    }
}

/// The six base-32 digits of a 30-bit value, most significant first.
pub open spec fn unpack6(x: u32) -> Seq<u8> {
    seq![
        ((x >> 25) & 31) as u8,
        ((x >> 20) & 31) as u8,
        ((x >> 15) & 31) as u8,
        ((x >> 10) & 31) as u8,
        ((x >> 5) & 31) as u8,
        (x & 31) as u8,
    ]
}

/// The six checksum groups for a tag and its data groups.
pub open spec fn checksum_groups(tag: Seq<u8>, data: Seq<u8>) -> Seq<u8> {
    unpack6(polymod(hrp_expand(tag) + data + zeros(6)) ^ 1)
}

/// A body (data groups plus trailing checksum groups) verifies against a
/// tag when the polynomial remainder over both equals 1.
pub open spec fn checksum_ok(tag: Seq<u8>, body: Seq<u8>) -> bool {
    polymod(hrp_expand(tag) + body) == 1
}

/// Folding a concatenation is folding the parts in turn.
pub proof fn lemma_polymod_from_append(c: u32, a: Seq<u8>, b: Seq<u8>)
    ensures
        polymod_from(c, a + b) == polymod_from(polymod_from(c, a), b),
    decreases a.len(),
{
    if a.len() == 0 {
        assert(a + b =~= b);
    } else {
        assert((a + b).drop_first() =~= a.drop_first() + b);
        lemma_polymod_from_append(polymod_step(c, a[0]), a.drop_first(), b);
    }
}

/// One round lands below 2^30 whatever came in.
proof fn lemma_step_range(chk: u32, v: u8)
    by (bit_vector)
    ensures
        polymod_step(chk, v) < 0x40000000,
{
}

/// One round with a digit is one round with zero, the digit xored into
/// the lowest bits.
proof fn lemma_step_zero(chk: u32, v: u8)
    by (bit_vector)
    requires
        v < 32,
    ensures
        polymod_step(chk, v) == polymod_step(chk, 0) ^ (v as u32),
{
}

/// Regrouping a double xor.
proof fn lemma_xor_assemble(x: u32, a: u32, b: u32)
    by (bit_vector)
    ensures
        (x ^ b) ^ a == x ^ (a ^ b),
        x ^ 0 == x,
{
}

/// The remainder always stays below 2^30.
pub proof fn lemma_polymod_from_range(c: u32, vs: Seq<u8>)
    requires
        c < 0x40000000,
    ensures
        polymod_from(c, vs) < 0x40000000,
    decreases vs.len(),
{
    if vs.len() > 0 {
        lemma_step_range(c, vs[0]);
        lemma_polymod_from_range(polymod_step(c, vs[0]), vs.drop_first());
    }
}

/// `p32` is positive and grows by a factor 32 per step.
pub proof fn lemma_p32_pos(n: nat)
    ensures
        p32(n) >= 1,
    decreases n,
{
    if n > 0 {
        lemma_p32_pos((n - 1) as nat);
    }
}

/// The first six powers of 32.
pub proof fn lemma_p32_values()
    ensures
        p32(0) == 1,
        p32(1) == 32,
        p32(2) == 0x400,
        p32(3) == 0x8000,
        p32(4) == 0x100000,
        p32(5) == 0x2000000,
        p32(6) == 0x40000000,
{
    assert(p32(0) == 1);
    assert(p32(1) == 32);
    assert(p32(2) == 0x400);
    assert(p32(3) == 0x8000);
    assert(p32(4) == 0x100000);
    assert(p32(5) == 0x2000000);
    assert(p32(6) == 0x40000000);
}

/// A base-32 digit string of length `n` has a value below `32^n`.
pub proof fn lemma_packn_bound(vs: Seq<u8>)
    requires
        forall|i: int| 0 <= i < vs.len() ==> vs[i] < 32,
    ensures
        packn(vs) < p32(vs.len()),
    decreases vs.len(),
{
    if vs.len() == 0 {
    } else {
        let k = p32((vs.len() - 1) as nat);
        lemma_packn_bound(vs.drop_first());
        lemma_p32_pos((vs.len() - 1) as nat);
        assert(vs[0] as nat <= 31);
        assert(vs[0] as nat * k <= 31 * k) by (nonlinear_arith)
            requires
                vs[0] as nat <= 31,
                k >= 1,
        ;
        assert(packn(vs) <= 31 * k + packn(vs.drop_first()));
        assert(31 * k + k == 32 * k);
    }
}

/// Bits xored in below the top 7 positions ride through one round as a
/// shift by 5.
proof fn lemma_step_inject(c: u32, d: u32, v: u8)
    by (bit_vector)
    requires
        d < 0x2000000,
    ensures
        polymod_step(c ^ d, v) == polymod_step(c, v) ^ ((d * 32) as u32),
{
}

/// Such bits ride through a whole fold as a multiplication by a power of
/// 32.
pub proof fn lemma_polymod_inject(c: u32, d: u32, vs: Seq<u8>)
    requires
        (d as nat) * p32(vs.len()) < 0x40000000,
    ensures
        polymod_from(c ^ d, vs) == polymod_from(c, vs) ^ (((d as nat) * p32(vs.len())) as u32),
    decreases vs.len(),
{
    if vs.len() == 0 {
        assert(p32(0) == 1);
        assert((d as nat) * 1 == d as nat);
    } else {
        let n = vs.len();
        let k = p32((n - 1) as nat);
        lemma_p32_pos((n - 1) as nat);
        assert(p32(n) == 32 * k);
        assert(d < 0x2000000) by (nonlinear_arith)
            requires
                (d as nat) * (32 * k) < 0x40000000,
                k >= 1,
        ;
        lemma_step_inject(c, d, vs[0]);
        let d2: u32 = ((d * 32) as u32);
        assert(d2 as nat == (d as nat) * 32);
        assert((d2 as nat) * k == (d as nat) * (32 * k)) by (nonlinear_arith)
            requires
                d2 as nat == (d as nat) * 32,
        ;
        lemma_polymod_inject(polymod_step(c, vs[0]), d2, vs.drop_first());
    }
}

/// Xor of a shifted digit with disjoint low bits is plain addition.
proof fn lemma_disjoint_xor(v: u32, b: u32)
    by (bit_vector)
    requires
        v < 32,
    ensures
        b == 0 ==> (v ^ b) == v + b,
        b < 32 ==> ((v * 32) as u32) ^ b == ((v * 32) + b) as u32,
        b < 0x400 ==> ((v * 0x400) as u32) ^ b == ((v * 0x400) + b) as u32,
        b < 0x8000 ==> ((v * 0x8000) as u32) ^ b == ((v * 0x8000) + b) as u32,
        b < 0x100000 ==> ((v * 0x100000) as u32) ^ b == ((v * 0x100000) + b) as u32,
        b < 0x2000000 ==> ((v * 0x2000000) as u32) ^ b == ((v * 0x2000000) + b) as u32,
{
}

/// Folding digits is folding zeros and xoring the digit string's value in.
pub proof fn lemma_polymod_shift(c: u32, vs: Seq<u8>)
    requires
        vs.len() <= 6,
        forall|i: int| 0 <= i < vs.len() ==> vs[i] < 32,
    ensures
        polymod_from(c, vs) == polymod_from(c, zeros(vs.len())) ^ (packn(vs) as u32),
    decreases vs.len(),
{
    lemma_p32_values();
    if vs.len() == 0 {
        assert(zeros(0) =~= vs);
        lemma_xor_assemble(polymod_from(c, vs), 0, 0);
    } else {
        let n = vs.len();
        let v0 = vs[0];
        let rest = vs.drop_first();
        let k = p32((n - 1) as nat);
        lemma_step_zero(c, v0);
        let c1 = polymod_step(c, 0);
        // ride the digit through the remaining rounds
        assert((v0 as nat) * k < 0x40000000) by (nonlinear_arith)
            requires
                v0 < 32,
                k == p32((n - 1) as nat),
                p32((n - 1) as nat) <= 0x2000000,
        ;
        lemma_polymod_inject(c1, v0 as u32, rest);
        // the remaining rounds of vs are the remaining rounds of zeros
        lemma_polymod_shift(c1, rest);
        assert(zeros(n).drop_first() =~= zeros((n - 1) as nat));
        assert(zeros(n)[0] == 0);
        assert(polymod_from(c, zeros(n)) == polymod_from(c1, zeros((n - 1) as nat)));
        // assemble: xor of the shifted digit and the tail value is their sum
        lemma_packn_bound(rest);
        let a: u32 = (((v0 as nat) * k) as u32);
        let b: u32 = (packn(rest) as u32);
        assert(polymod_from(c, vs) == (polymod_from(c1, zeros((n - 1) as nat)) ^ (packn(
            rest,
        ) as u32)) ^ a);
        lemma_disjoint_xor(v0 as u32, b);
        lemma_xor_assemble(polymod_from(c1, zeros((n - 1) as nat)), a, b);
        if n == 1 {
            assert(b == 0);
            assert(a ^ b == a + b);
        } else if n == 2 {
            assert(a == ((v0 as u32) * 32) as u32 && b < 32);
        } else if n == 3 {
            assert(a == ((v0 as u32) * 0x400) as u32 && b < 0x400);
        } else if n == 4 {
            assert(a == ((v0 as u32) * 0x8000) as u32 && b < 0x8000);
        } else if n == 5 {
            assert(a == ((v0 as u32) * 0x100000) as u32 && b < 0x100000);
        } else {
            assert(a == ((v0 as u32) * 0x2000000) as u32 && b < 0x2000000);
        }
        assert(a ^ b == (a + b) as u32);
        assert(packn(vs) == (v0 as nat) * k + packn(rest));
    }
}

/// The six digits of a 30-bit value pack back to the value.
pub proof fn lemma_packn_six(s: Seq<u8>)
    requires
        s.len() == 6,
    ensures
        packn(s) == (s[0] as nat) * 0x2000000 + (s[1] as nat) * 0x100000 + (s[2] as nat) * 0x8000
            + (s[3] as nat) * 0x400 + (s[4] as nat) * 32 + (s[5] as nat),
{
    lemma_p32_values();
    let s1 = s.drop_first();
    let s2 = s1.drop_first();
    let s3 = s2.drop_first();
    let s4 = s3.drop_first();
    let s5 = s4.drop_first();
    assert(s5.drop_first().len() == 0);
    assert(packn(s5.drop_first()) == 0);
    assert(packn(s5) == (s5[0] as nat) * p32(0) + packn(s5.drop_first()));
    assert(packn(s4) == (s4[0] as nat) * p32(1) + packn(s5));
    assert(packn(s3) == (s3[0] as nat) * p32(2) + packn(s4));
    assert(packn(s2) == (s2[0] as nat) * p32(3) + packn(s3));
    assert(packn(s1) == (s1[0] as nat) * p32(4) + packn(s2));
    assert(packn(s) == (s[0] as nat) * p32(5) + packn(s1));
    assert(s1[0] == s[1] && s2[0] == s[2] && s3[0] == s[3] && s4[0] == s[4] && s5[0] == s[5]);
}

/// Unpacking a 30-bit value gives six digits that pack back to it.
pub proof fn lemma_pack_unpack(x: u32)
    requires
        x < 0x40000000,
    ensures
        unpack6(x).len() == 6,
        forall|i: int| 0 <= i < 6 ==> unpack6(x)[i] < 32,
        packn(unpack6(x)) == x,
{
    let s = unpack6(x);
    assert(s[0] == ((x >> 25) & 31) as u8 && s[1] == ((x >> 20) & 31) as u8 && s[2] == ((x >> 15)
        & 31) as u8 && s[3] == ((x >> 10) & 31) as u8 && s[4] == ((x >> 5) & 31) as u8 && s[5] == (x
        & 31) as u8);
    assert(((x >> 25) & 31) < 32 && ((x >> 20) & 31) < 32 && ((x >> 15) & 31) < 32 && ((x >> 10)
        & 31) < 32 && ((x >> 5) & 31) < 32 && (x & 31) < 32) by (bit_vector);
    lemma_packn_six(s);
    assert(((x >> 25) & 31) * 0x2000000 + ((x >> 20) & 31) * 0x100000 + ((x >> 15) & 31) * 0x8000 + (
    (x >> 10) & 31) * 0x400 + ((x >> 5) & 31) * 32 + (x & 31) == x) by (bit_vector)
        requires
            x < 0x40000000,
    ;
}

/// Six digits pack to a value that unpacks to the digits again.
pub proof fn lemma_unpack_pack(s: Seq<u8>)
    requires
        s.len() == 6,
        forall|i: int| 0 <= i < 6 ==> s[i] < 32,
    ensures
        packn(s) < 0x40000000,
        unpack6(packn(s) as u32) =~= s,
{
    lemma_packn_six(s);
    let a = s[0];
    let b = s[1];
    let c = s[2];
    let d = s[3];
    let e = s[4];
    let f = s[5];
    assert(a < 32 && b < 32 && c < 32 && d < 32 && e < 32 && f < 32);
    let p: u32 = (a as nat * 0x2000000 + b as nat * 0x100000 + c as nat * 0x8000 + d as nat * 0x400
        + e as nat * 32 + f as nat) as u32;
    assert((a * 0x2000000 + b * 0x100000 + c * 0x8000 + d * 0x400 + e * 32 + f) < 0x40000000
        && ((p >> 25) & 31) == a && ((p >> 20) & 31) == b && ((p >> 15) & 31) == c && ((p >> 10)
        & 31) == d && ((p >> 5) & 31) == e && (p & 31) == f) by (bit_vector)
        requires
            a < 32 && b < 32 && c < 32 && d < 32 && e < 32 && f < 32,
            p == ((a as nat * 0x2000000 + b as nat * 0x100000 + c as nat * 0x8000 + d as nat * 0x400
                + e as nat * 32 + f as nat) as u32),
    ;
}

/// The checksum that `checksum_groups` appends makes the body verify.
pub proof fn lemma_checksum_roundtrip(tag: Seq<u8>, data: Seq<u8>)
    ensures
        checksum_groups(tag, data).len() == 6,
        forall|i: int| 0 <= i < 6 ==> checksum_groups(tag, data)[i] < 32,
        checksum_ok(tag, data + checksum_groups(tag, data)),
{
    let pre = hrp_expand(tag) + data;
    let c0 = polymod_from(1, pre);
    assert(hrp_expand(tag) + (data + zeros(6)) =~= pre + zeros(6));
    lemma_polymod_from_append(1, pre, zeros(6));
    let y = polymod_from(c0, zeros(6));
    lemma_polymod_from_range(1, pre);
    lemma_polymod_from_range(c0, zeros(6));
    let x = y ^ 1;
    assert(x < 0x40000000 && y ^ x == 1) by (bit_vector)
        requires
            y < 0x40000000u32,
            x == y ^ 1,
    ;
    lemma_pack_unpack(x);
    let cs = unpack6(x);
    assert(checksum_groups(tag, data) =~= cs);
    assert(hrp_expand(tag) + (data + cs) =~= pre + cs);
    lemma_polymod_from_append(1, pre, cs);
    lemma_polymod_shift(c0, cs);
    assert(zeros(cs.len()) =~= zeros(6));
    assert(polymod_from(c0, cs) == y ^ x);
}

/// Only the checksum that `checksum_groups` computes makes a body verify:
/// the trailing six groups of a verifying body are determined by the tag
/// and the data groups.
pub proof fn lemma_checksum_unique(tag: Seq<u8>, data: Seq<u8>, cs: Seq<u8>)
    requires
        cs.len() == 6,
        forall|i: int| 0 <= i < 6 ==> cs[i] < 32,
        checksum_ok(tag, data + cs),
    ensures
        cs =~= checksum_groups(tag, data),
{
    let pre = hrp_expand(tag) + data;
    let c0 = polymod_from(1, pre);
    assert(hrp_expand(tag) + (data + cs) =~= pre + cs);
    lemma_polymod_from_append(1, pre, cs);
    lemma_polymod_shift(c0, cs);
    assert(zeros(cs.len()) =~= zeros(6));
    let y = polymod_from(c0, zeros(6));
    lemma_polymod_from_range(1, pre);
    lemma_polymod_from_range(c0, zeros(6));
    lemma_packn_bound(cs);
    lemma_p32_values();
    let p: u32 = packn(cs) as u32;
    assert(y ^ p == 1);
    assert(p == y ^ 1) by (bit_vector)
        requires
            y ^ p == 1u32,
    ;
    assert(hrp_expand(tag) + (data + zeros(6)) =~= pre + zeros(6));
    lemma_polymod_from_append(1, pre, zeros(6));
    lemma_unpack_pack(cs);
}

} // verus!
