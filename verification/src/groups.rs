//! Regrouping between 8-bit bytes and 5-bit groups.
//!
//! A 32-byte payload is read as a string of 256 bits, most significant
//! bit first, and cut into 52 groups of 5 bits; the last group carries 4
//! zero padding bits. Decoding reverses the cut and insists that the
//! padding bits are zero.

use vstd::prelude::*;

verus! {

/// Bit `k` (most significant first) of the 8-bit value `v`, as 0 or 1.
pub open spec fn bit8(v: u8, k: u32) -> u32 {
    ((v as u32) >> ((7 - k) as u32)) & 1
}

/// Bit `k` (most significant first) of the 5-bit value `v`, as 0 or 1.
pub open spec fn bit5(v: u8, k: u32) -> u32 {
    ((v as u32) >> ((4 - k) as u32)) & 1
}

/// Bit `j` of the payload `p` read as a bit string, 0 past the end.
pub open spec fn payload_bit(p: Seq<u8>, j: int) -> u32 {
    if 0 <= j < 8 * p.len() {
        bit8(p[j / 8], (j % 8) as u32)
    } else {
        0
    }
}

/// The 5-bit group starting at bit `5 * i` of the payload `p`.
pub open spec fn group_at(p: Seq<u8>, i: int) -> u8 {
    (16 * payload_bit(p, 5 * i) + 8 * payload_bit(p, 5 * i + 1) + 4 * payload_bit(p, 5 * i + 2)
        + 2 * payload_bit(p, 5 * i + 3) + payload_bit(p, 5 * i + 4)) as u8
}

/// The 52 5-bit groups of a 32-byte payload.
pub open spec fn data_groups(p: Seq<u8>) -> Seq<u8> {
    Seq::new(52, |i: int| group_at(p, i))
}

/// Bit `j` of the group sequence `gs` read as a bit string, 0 past the end.
pub open spec fn groups_bit(gs: Seq<u8>, j: int) -> u32 {
    if 0 <= j < 5 * gs.len() {
        bit5(gs[j / 5], (j % 5) as u32)
    } else {
        0
    }
}

/// The byte whose bits are bits `8 * i .. 8 * i + 8` of the group sequence.
pub open spec fn byte_at(gs: Seq<u8>, i: int) -> u8 {
    (128 * groups_bit(gs, 8 * i) + 64 * groups_bit(gs, 8 * i + 1) + 32 * groups_bit(gs, 8 * i + 2)
        + 16 * groups_bit(gs, 8 * i + 3) + 8 * groups_bit(gs, 8 * i + 4) + 4 * groups_bit(
        gs,
        8 * i + 5,
    ) + 2 * groups_bit(gs, 8 * i + 6) + groups_bit(gs, 8 * i + 7)) as u8
}

/// The 32 bytes carried by a sequence of 52 5-bit groups.
pub open spec fn bytes_of_groups(gs: Seq<u8>) -> Seq<u8> {
    Seq::new(32, |i: int| byte_at(gs, i))
}

/// A sequence of 5-bit groups: every element is below 32.
pub open spec fn all_groups(gs: Seq<u8>) -> bool {
    forall|i: int| 0 <= i < gs.len() ==> gs[i] < 32
}

/// The 16-bit window holding two adjacent payload bytes, cut at `off`.
pub open spec fn enc_window(x: u8, y: u8, off: u32) -> u8 {
    (((((x as u32) << 8) | (y as u32)) >> ((11 - off) as u32)) & 31) as u8
}

/// The 15-bit window holding three adjacent groups, cut at `off`.
pub open spec fn dec_window(g0: u8, g1: u8, g2: u8, off: u32) -> u8 {
    (((((g0 as u32) << 10) | ((g1 as u32) << 5) | (g2 as u32)) >> ((7 - off) as u32)) & 255) as u8
}

/// Every bit is 0 or 1, and the bits of the zero byte are 0.
pub proof fn lemma_bit_facts()
    ensures
        forall|v: u8, k: u32| #[trigger] bit8(v, k) <= 1,
        forall|v: u8, k: u32| #[trigger] bit5(v, k) <= 1,
        forall|k: u32| #[trigger] bit8(0, k) == 0,
        forall|k: u32| #[trigger] bit5(0, k) == 0,
        forall|p: Seq<u8>, j: int| #[trigger] payload_bit(p, j) <= 1,
        forall|gs: Seq<u8>, j: int| #[trigger] groups_bit(gs, j) <= 1,
{
    assert(forall|v: u8, k: u32| #[trigger] bit8(v, k) <= 1) by (bit_vector);
    assert(forall|v: u8, k: u32| #[trigger] bit5(v, k) <= 1) by (bit_vector);
    assert(forall|k: u32| #[trigger] bit8(0, k) == 0) by (bit_vector);
    assert(forall|k: u32| #[trigger] bit5(0, k) == 0) by (bit_vector);
}

/// The bits of a value composed from five bits are those bits.
proof fn lemma_compose5(b0: u32, b1: u32, b2: u32, b3: u32, b4: u32, k: u32)
    by (bit_vector)
    requires
        b0 <= 1 && b1 <= 1 && b2 <= 1 && b3 <= 1 && b4 <= 1,
        k < 5,
    ensures
        (16 * b0 + 8 * b1 + 4 * b2 + 2 * b3 + b4) < 32,
        bit5((16 * b0 + 8 * b1 + 4 * b2 + 2 * b3 + b4) as u8, k) == (if k == 0 {
            b0
        } else if k == 1 {
            b1
        } else if k == 2 {
            b2
        } else if k == 3 {
            b3
        } else {
            b4
        }),
{
}

/// The bits of a value composed from eight bits are those bits.
proof fn lemma_compose8(b0: u32, b1: u32, b2: u32, b3: u32, b4: u32, b5: u32, b6: u32, b7: u32, k: u32)
    by (bit_vector)
    requires
        b0 <= 1 && b1 <= 1 && b2 <= 1 && b3 <= 1 && b4 <= 1 && b5 <= 1 && b6 <= 1 && b7 <= 1,
        k < 8,
    ensures
        (128 * b0 + 64 * b1 + 32 * b2 + 16 * b3 + 8 * b4 + 4 * b5 + 2 * b6 + b7) < 256,
        bit8((128 * b0 + 64 * b1 + 32 * b2 + 16 * b3 + 8 * b4 + 4 * b5 + 2 * b6 + b7) as u8, k) == (
        if k == 0 {
            b0
        } else if k == 1 {
            b1
        } else if k == 2 {
            b2
        } else if k == 3 {
            b3
        } else if k == 4 {
            b4
        } else if k == 5 {
            b5
        } else if k == 6 {
            b6
        } else {
            b7
        }),
{
}

/// Two bytes with equal bits are equal.
proof fn lemma_u8_eq(a: u8, b: u8)
    by (bit_vector)
    requires
        bit8(a, 0) == bit8(b, 0),
        bit8(a, 1) == bit8(b, 1),
        bit8(a, 2) == bit8(b, 2),
        bit8(a, 3) == bit8(b, 3),
        bit8(a, 4) == bit8(b, 4),
        bit8(a, 5) == bit8(b, 5),
        bit8(a, 6) == bit8(b, 6),
        bit8(a, 7) == bit8(b, 7),
    ensures
        a == b,
{
}

/// Two 5-bit values with equal bits are equal.
proof fn lemma_u5_eq(a: u8, b: u8)
    by (bit_vector)
    requires
        a < 32,
        b < 32,
        bit5(a, 0) == bit5(b, 0),
        bit5(a, 1) == bit5(b, 1),
        bit5(a, 2) == bit5(b, 2),
        bit5(a, 3) == bit5(b, 3),
        bit5(a, 4) == bit5(b, 4),
    ensures
        a == b,
{
}

/// A group's low 4 bits are zero exactly when its last four bits are.
proof fn lemma_padding_bits(g: u8)
    by (bit_vector)
    requires
        g < 32,
    ensures
        (g & 15 == 0) == (bit5(g, 1) == 0 && bit5(g, 2) == 0 && bit5(g, 3) == 0 && bit5(g, 4) == 0),
{
}

/// The bits of the encoding window are the payload bits it covers.
proof fn lemma_enc_window_bit(x: u8, y: u8, off: u32, k: u32)
    by (bit_vector)
    requires
        off < 8,
        k < 5,
    ensures
        enc_window(x, y, off) < 32,
        bit5(enc_window(x, y, off), k) == (if off + k < 8 {
            bit8(x, (off + k) as u32)
        } else {
            bit8(y, (off + k - 8) as u32)
        }),
{
}

/// The bits of the decoding window are the group bits it covers.
proof fn lemma_dec_window_bit(g0: u8, g1: u8, g2: u8, off: u32, k: u32)
    by (bit_vector)
    requires
        g0 < 32 && g1 < 32 && g2 < 32,
        off < 5,
        k < 8,
    ensures
        bit8(dec_window(g0, g1, g2, off), k) == (if off + k < 5 {
            bit5(g0, (off + k) as u32)
        } else if off + k < 10 {
            bit5(g1, (off + k - 5) as u32)
        } else {
            bit5(g2, (off + k - 10) as u32)
        }),
{
}

/// The groups of a 32-byte payload are 5-bit values whose bit string is
/// the payload's bit string, padded with four zero bits.
pub proof fn lemma_data_groups_bits(p: Seq<u8>)
    requires
        p.len() == 32,
    ensures
        data_groups(p).len() == 52,
        all_groups(data_groups(p)),
        forall|j: int| #![trigger groups_bit(data_groups(p), j)]
            0 <= j < 260 ==> groups_bit(data_groups(p), j) == payload_bit(p, j),
        data_groups(p)[51] & 15 == 0,
{
    let gs = data_groups(p);
    lemma_bit_facts();
    assert forall|i: int, k: u32| 0 <= i < 52 && k < 5 implies #[trigger] bit5(gs[i], k)
        == payload_bit(p, 5 * i + k) && gs[i] < 32 by {
        lemma_compose5(
            payload_bit(p, 5 * i),
            payload_bit(p, 5 * i + 1),
            payload_bit(p, 5 * i + 2),
            payload_bit(p, 5 * i + 3),
            payload_bit(p, 5 * i + 4),
            k,
        );
    }
    assert forall|j: int| 0 <= j < 260 implies #[trigger] groups_bit(gs, j) == payload_bit(
        p,
        j,
    ) by {
        let i = j / 5;
        let k = j % 5;
        assert(j == 5 * i + k);
        assert(0 <= i < 52);
        assert(bit5(gs[i], k as u32) == payload_bit(p, 5 * i + k));
    }
    // the last group covers bits 255..260; bits past 255 are zero padding
    assert(bit5(gs[51], 1u32) == payload_bit(p, 256int) && bit5(gs[51], 2u32) == payload_bit(p, 257int) && bit5(gs[51], 3u32) == payload_bit(p, 258int) && bit5(gs[51], 4u32) == payload_bit(p, 259int));
    lemma_padding_bits(gs[51]);
}

/// One byte survives the round trip through the cut groups.
proof fn lemma_byte_back(p: Seq<u8>, i: int)
    requires
        p.len() == 32,
        0 <= i < 32,
    ensures
        byte_at(data_groups(p), i) == p[i],
{
    let gs = data_groups(p);
    lemma_data_groups_bits(p);
    lemma_bit_facts();
    assert forall|k: u32| k < 8 implies #[trigger] groups_bit(gs, 8 * i + k) == bit8(
        p[i],
        k,
    ) by {
        assert(groups_bit(gs, 8 * i + k) == payload_bit(p, 8 * i + k));
        assert((8 * i + k) / 8 == i && (8 * i + k) % 8 == k);
    }
    lemma_compose8(
        groups_bit(gs, 8 * i),
        groups_bit(gs, 8 * i + 1),
        groups_bit(gs, 8 * i + 2),
        groups_bit(gs, 8 * i + 3),
        groups_bit(gs, 8 * i + 4),
        groups_bit(gs, 8 * i + 5),
        groups_bit(gs, 8 * i + 6),
        groups_bit(gs, 8 * i + 7),
        0,
    );
    let b = byte_at(gs, i);
    assert forall|k: u32| k < 8 implies #[trigger] bit8(b, k) == bit8(p[i], k) by {
        lemma_compose8(
            groups_bit(gs, 8 * i),
            groups_bit(gs, 8 * i + 1),
            groups_bit(gs, 8 * i + 2),
            groups_bit(gs, 8 * i + 3),
            groups_bit(gs, 8 * i + 4),
            groups_bit(gs, 8 * i + 5),
            groups_bit(gs, 8 * i + 6),
            groups_bit(gs, 8 * i + 7),
            k,
        );
    }
    lemma_u8_eq(b, p[i]);
}

/// Cutting a 32-byte payload into groups and reassembling the bytes gives
/// the payload back.
pub proof fn lemma_groups_roundtrip(p: Seq<u8>)
    requires
        p.len() == 32,
    ensures
        bytes_of_groups(data_groups(p)) =~= p,
{
    assert forall|i: int| 0 <= i < 32 implies #[trigger] bytes_of_groups(data_groups(p))[i]
        == p[i] by {
        lemma_byte_back(p, i);
    }
}

/// Reassembling 32 bytes from 52 groups with zero padding and cutting
/// them again gives the groups back: first, the bit strings agree.
proof fn lemma_bytes_of_groups_bits(gs: Seq<u8>)
    requires
        gs.len() == 52,
        all_groups(gs),
        gs[51] & 15 == 0,
    ensures
        forall|j: int| 0 <= j < 260 ==> #[trigger] payload_bit(bytes_of_groups(gs), j)
            == groups_bit(gs, j),
{
    let p = bytes_of_groups(gs);
    lemma_bit_facts();
    assert forall|i: int, k: u32| 0 <= i < 32 && k < 8 implies #[trigger] bit8(p[i], k)
        == groups_bit(gs, 8 * i + k) by {
        lemma_compose8(
            groups_bit(gs, 8 * i),
            groups_bit(gs, 8 * i + 1),
            groups_bit(gs, 8 * i + 2),
            groups_bit(gs, 8 * i + 3),
            groups_bit(gs, 8 * i + 4),
            groups_bit(gs, 8 * i + 5),
            groups_bit(gs, 8 * i + 6),
            groups_bit(gs, 8 * i + 7),
            k,
        );
    }
    assert forall|j: int| 0 <= j < 260 implies payload_bit(p, j) == #[trigger] groups_bit(
        gs,
        j,
    ) by {
        if j < 256 {
            let i = j / 8;
            let k = j % 8;
            assert(j == 8 * i + k);
            assert(0 <= i < 32);
            assert(bit8(p[i], k as u32) == groups_bit(gs, 8 * i + k));
        } else {
            // zero padding: the low four bits of the last group
            let k = j % 5;
            assert(j / 5 == 51 && 1 <= k <= 4);
            lemma_padding_bits(gs[51]);
            assert(groups_bit(gs, j) == bit5(gs[51], k as u32));
        }
    }
}

/// One group survives the round trip through the reassembled bytes.
#[verifier::rlimit(50)]
proof fn lemma_group_back(gs: Seq<u8>, i: int)
    requires
        gs.len() == 52,
        all_groups(gs),
        gs[51] & 15 == 0,
        0 <= i < 52,
    ensures
        group_at(bytes_of_groups(gs), i) == gs[i],
{
    let p = bytes_of_groups(gs);
    lemma_bit_facts();
    lemma_bytes_of_groups_bits(gs);
    assert forall|k: u32| k < 5 implies #[trigger] payload_bit(p, 5 * i + k) == bit5(
        gs[i],
        k,
    ) by {
        assert(payload_bit(p, 5 * i + k) == groups_bit(gs, 5 * i + k));
        assert((5 * i + k) / 5 == i && (5 * i + k) % 5 == k);
    }
    lemma_compose5(
        payload_bit(p, 5 * i),
        payload_bit(p, 5 * i + 1),
        payload_bit(p, 5 * i + 2),
        payload_bit(p, 5 * i + 3),
        payload_bit(p, 5 * i + 4),
        0,
    );
    let g = group_at(p, i);
    assert forall|k: u32| k < 5 implies #[trigger] bit5(g, k) == bit5(gs[i], k) by {
        lemma_compose5(
            payload_bit(p, 5 * i),
            payload_bit(p, 5 * i + 1),
            payload_bit(p, 5 * i + 2),
            payload_bit(p, 5 * i + 3),
            payload_bit(p, 5 * i + 4),
            k,
        );
    }
    lemma_u5_eq(g, gs[i]);
}

/// Reassembling 32 bytes from 52 groups with zero padding and cutting
/// them again gives the groups back.
pub proof fn lemma_bytes_roundtrip(gs: Seq<u8>)
    requires
        gs.len() == 52,
        all_groups(gs),
        gs[51] & 15 == 0,
    ensures
        data_groups(bytes_of_groups(gs)) =~= gs,
{
    let p = bytes_of_groups(gs);
    assert forall|i: int| 0 <= i < 52 implies #[trigger] data_groups(p)[i] == gs[i] by {
        lemma_group_back(gs, i);
    }
}

/// Cut a 32-byte payload into its 52 5-bit groups.
pub fn payload_to_groups(p: &[u8; 32]) -> (r: Vec<u8>)
    ensures
        r@ == data_groups(p@),
        r@.len() == 52,
        all_groups(r@),
{
    let mut r: Vec<u8> = Vec::new();
    let mut i: usize = 0;
    while i < 52
        invariant
            i <= 52,
            r@.len() == i,
            p@.len() == 32,
            forall|j: int| 0 <= j < i ==> r@[j] == data_groups(p@)[j],
        decreases 52 - i,
    {
        let bitpos: usize = 5 * i;
        let bi: usize = bitpos / 8;
        let off: usize = bitpos % 8;
        let x = p[bi];
        let y = if bi + 1 < 32 {
            p[bi + 1]
        } else {
            0
        };
        let w: u32 = ((x as u32) << 8) | (y as u32);
        let g: u8 = ((w >> ((11 - off) as u32)) & 31) as u8;
        proof {
            lemma_data_groups_bits(p@);
            lemma_bit_facts();
            let ii = i as int;
            assert(g == enc_window(x, y, off as u32));
            assert forall|k: u32| k < 5 implies #[trigger] bit5(g, k) == payload_bit(
                p@,
                5 * ii + k,
            ) by {
                lemma_enc_window_bit(x, y, off as u32, k);
                let j = 5 * ii + k;
                assert(j == 8 * (bi as int) + (off + k));
                if off + k < 8 {
                    assert(j / 8 == bi && j % 8 == off + k);
                    assert(payload_bit(p@, j) == bit8(x, (off + k) as u32));
                } else {
                    assert(j / 8 == bi + 1 && j % 8 == off + k - 8);
                    if bi + 1 < 32 {
                        assert(payload_bit(p@, j) == bit8(y, (off + k - 8) as u32));
                    } else {
                        assert(j >= 256);
                        assert(payload_bit(p@, j) == 0);
                    }
                }
            }
            lemma_enc_window_bit(x, y, off as u32, 0);
            assert forall|k: u32| k < 5 implies #[trigger] bit5(g, k) == bit5(
                data_groups(p@)[ii],
                k,
            ) by {
                assert(groups_bit(data_groups(p@), 5 * ii + k) == payload_bit(p@, 5 * ii + k));
                assert((5 * ii + k) / 5 == ii && (5 * ii + k) % 5 == k);
            }
            lemma_u5_eq(g, data_groups(p@)[ii]);
        }
        r.push(g);
        i += 1;
    }
    proof {
        lemma_data_groups_bits(p@);
        assert(r@ =~= data_groups(p@));
    }
    r
}

/// Reassemble the 32 bytes carried by 52 5-bit groups.
pub fn groups_to_bytes(gs: &Vec<u8>) -> (r: Vec<u8>)
    requires
        gs@.len() == 52,
        all_groups(gs@),
    ensures
        r@ == bytes_of_groups(gs@),
        r@.len() == 32,
{
    let mut r: Vec<u8> = Vec::new();
    let mut i: usize = 0;
    while i < 32
        invariant
            i <= 32,
            r@.len() == i,
            gs@.len() == 52,
            all_groups(gs@),
            forall|j: int| 0 <= j < i ==> r@[j] == bytes_of_groups(gs@)[j],
        decreases 32 - i,
    {
        let bitpos: usize = 8 * i;
        let a: usize = bitpos / 5;
        let off: usize = bitpos % 5;
        let g0 = gs[a];
        let g1 = gs[a + 1];
        let g2 = gs[a + 2];
        let w: u32 = ((g0 as u32) << 10) | ((g1 as u32) << 5) | (g2 as u32);
        let b: u8 = ((w >> ((7 - off) as u32)) & 255) as u8;
        proof {
            lemma_bit_facts();
            let ii = i as int;
            assert(a + 2 <= 51);
            assert(b == dec_window(g0, g1, g2, off as u32));
            assert forall|k: u32| k < 8 implies #[trigger] bit8(b, k) == groups_bit(
                gs@,
                8 * ii + k,
            ) by {
                lemma_dec_window_bit(g0, g1, g2, off as u32, k);
                let j = 8 * ii + k;
                assert(j == 5 * (a as int) + (off + k));
                if off + k < 5 {
                    assert(j / 5 == a && j % 5 == off + k);
                } else if off + k < 10 {
                    assert(j / 5 == a + 1 && j % 5 == off + k - 5);
                } else {
                    assert(j / 5 == a + 2 && j % 5 == off + k - 10);
                }
            }
            let t = byte_at(gs@, ii);
            assert forall|k: u32| k < 8 implies #[trigger] bit8(t, k) == bit8(b, k) by {
                lemma_compose8(
                    groups_bit(gs@, 8 * ii),
                    groups_bit(gs@, 8 * ii + 1),
                    groups_bit(gs@, 8 * ii + 2),
                    groups_bit(gs@, 8 * ii + 3),
                    groups_bit(gs@, 8 * ii + 4),
                    groups_bit(gs@, 8 * ii + 5),
                    groups_bit(gs@, 8 * ii + 6),
                    groups_bit(gs@, 8 * ii + 7),
                    k,
                );
            }
            lemma_u8_eq(b, t);
        }
        r.push(b);
        i += 1;
    }
    proof {
        assert(r@ =~= bytes_of_groups(gs@));
    }
    r
}

} // verus!
