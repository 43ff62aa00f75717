//! Encoding and decoding of checksummed addresses.
//!
//! An encoded address is `tag || '1' || body`: the tag is 1 to 83
//! lowercase ASCII letters, the separator is the character `1`, and the
//! body writes the payload's 52 data groups followed by 6 checksum groups
//! in the restricted base-32 alphabet. Decoding splits at the last `1`,
//! verifies the checksum over tag and body, and reassembles exactly 32
//! bytes, rejecting anything else.

use vstd::prelude::*;

use crate::charset::{byte_group, char_group, charset_byte, group_char, lemma_charset_bijective};
use crate::checksum::{
    checksum_groups, checksum_ok, hrp_expand, lemma_checksum_roundtrip, lemma_checksum_unique,
    lemma_polymod_from_append, polymod, polymod_from, polymod_step, unpack6, zeros,
};
use crate::groups::{
    all_groups, bytes_of_groups, data_groups, groups_to_bytes, lemma_bytes_roundtrip,
    lemma_data_groups_bits, lemma_groups_roundtrip, payload_to_groups,
};
use vstd::string::is_ascii_spec_bytes;
use vstd::utf8::{char_u32_cast, is_ascii_chars};

verus! {

/// Encoding rejects its input: the tag is empty, longer than 83
/// characters, or holds a character outside the lowercase letters.
#[derive(Clone, Copy, Debug, PartialEq, Eq, Structural)]
pub struct EncodingError {}

/// The ways a string can fail to decode.
#[derive(Clone, Copy, Debug, PartialEq, Eq, Structural)]
pub enum DecodingError {
    /// No separator character `1` occurs in the string.
    MissingSeparator,
    /// A character is outside the set its position permits.
    InvalidCharacter,
    /// The part before the last separator is empty.
    TagEmpty,
    /// The part before the last separator is longer than 83 characters.
    TagTooLong,
    /// The checksum over tag and body does not verify.
    ChecksumMismatch,
    /// The body does not regroup to exactly 32 bytes.
    InvalidLength,
}

/// A character a tag may hold: a lowercase ASCII letter.
pub open spec fn is_tag_char(c: char) -> bool {
    'a' <= c && c <= 'z'
}

/// A well-formed tag: 1 to 83 lowercase ASCII letters.
pub open spec fn valid_tag(t: Seq<char>) -> bool {
    &&& 1 <= t.len() <= 83
    &&& forall|i: int| 0 <= i < t.len() ==> is_tag_char(#[trigger] t[i])
}

/// The ASCII bytes of a tag.
pub open spec fn tag_bytes(t: Seq<char>) -> Seq<u8> {
    Seq::new(t.len(), |i: int| t[i] as u8)
}

/// The 58 body groups of an address: 52 data groups, then the checksum.
pub open spec fn body_groups(t: Seq<char>, p: Seq<u8>) -> Seq<u8> {
    data_groups(p) + checksum_groups(tag_bytes(t), data_groups(p))
}

/// The encoded address for a tag and a 32-byte payload.
pub open spec fn encoded(t: Seq<char>, p: Seq<u8>) -> Seq<char> {
    t + seq!['1'] + body_groups(t, p).map_values(|g: u8| group_char(g))
}

/// The position of the last separator `1` in `s`, or -1 when none occurs.
pub open spec fn last_sep(s: Seq<char>) -> int
    decreases s.len(),
{
    if s.len() == 0 {
        -1
    } else if s[s.len() - 1] == '1' {
        s.len() - 1
    } else {
        last_sep(s.drop_last())
    }
}

/// Every character of a body lies in the restricted alphabet.
pub open spec fn body_valid(body: Seq<char>) -> bool {
    forall|i: int| 0 <= i < body.len() ==> char_group(#[trigger] body[i]) is Some
}

/// The group values a body's characters stand for.
pub open spec fn body_to_groups(body: Seq<char>) -> Seq<u8> {
    Seq::new(body.len(), |i: int| char_group(body[i])->Some_0)
}

/// What decoding a string yields: the tag before the last separator and
/// the 32 reassembled payload bytes, or the first error the checks find.
/// The checks run in this order: characters must be ASCII, a separator
/// must exist, the tag must be well formed, the body must stay within the
/// alphabet and leave room for the checksum, the checksum must verify,
/// and the data groups must regroup to exactly 32 bytes with zero
/// padding.
pub open spec fn decode_spec(s: Seq<char>) -> Result<(Seq<char>, Seq<u8>), DecodingError> {
    if !is_ascii_chars(s) {
        Err(DecodingError::InvalidCharacter)
    } else if last_sep(s) < 0 {
        Err(DecodingError::MissingSeparator)
    } else {
        let sep = last_sep(s);
        let t = s.subrange(0, sep);
        let body = s.subrange(sep + 1, s.len() as int);
        if t.len() == 0 {
            Err(DecodingError::TagEmpty)
        } else if t.len() > 83 {
            Err(DecodingError::TagTooLong)
        } else if !(forall|i: int| 0 <= i < t.len() ==> is_tag_char(#[trigger] t[i])) {
            Err(DecodingError::InvalidCharacter)
        } else if !body_valid(body) {
            Err(DecodingError::InvalidCharacter)
        } else if body.len() < 6 {
            Err(DecodingError::InvalidLength)
        } else if !checksum_ok(tag_bytes(t), body_to_groups(body)) {
            Err(DecodingError::ChecksumMismatch)
        } else if body.len() != 58 {
            Err(DecodingError::InvalidLength)
        } else if body_to_groups(body)[51] & 15 != 0 {
            Err(DecodingError::InvalidLength)
        } else {
            Ok((t, bytes_of_groups(body_to_groups(body).take(52))))
        }
    }
}

/// Where the last separator is: at `k` when `s[k] == '1'` and nothing
/// after `k` is a `1`; nowhere when no character is a `1`.
proof fn lemma_last_sep_at(s: Seq<char>, k: int)
    requires
        0 <= k < s.len(),
        s[k] == '1',
        forall|j: int| k < j < s.len() ==> s[j] != '1',
    ensures
        last_sep(s) == k,
    decreases s.len(),
{
    if k == s.len() - 1 {
    } else {
        assert(s.drop_last() =~= s.subrange(0, s.len() - 1));
        lemma_last_sep_at(s.drop_last(), k);
    }
}

/// A string without a separator has none to find.
proof fn lemma_last_sep_none(s: Seq<char>)
    requires
        forall|j: int| 0 <= j < s.len() ==> s[j] != '1',
    ensures
        last_sep(s) == -1,
    decreases s.len(),
{
    if s.len() > 0 {
        lemma_last_sep_none(s.drop_last());
    }
}

/// The encoded form of a valid tag and 32-byte payload decodes to that
/// tag and payload: the codec is a bijection on well-formed inputs.
pub proof fn lemma_encode_decode(t: Seq<char>, p: Seq<u8>)
    requires
        valid_tag(t),
        p.len() == 32,
    ensures
        decode_spec(encoded(t, p)) == Ok::<(Seq<char>, Seq<u8>), DecodingError>((t, p)),
{
    lemma_charset_bijective();
    lemma_data_groups_bits(p);
    lemma_checksum_roundtrip(tag_bytes(t), data_groups(p));
    let dg = data_groups(p);
    let cs = checksum_groups(tag_bytes(t), dg);
    let bg = body_groups(t, p);
    let bchars = bg.map_values(|g: u8| group_char(g));
    let s = encoded(t, p);
    let n = t.len();
    assert(bg.len() == 58 && bchars.len() == 58 && s.len() == n + 59);
    assert(all_groups(bg)) by {
        assert(forall|i: int| 0 <= i < 52 ==> bg[i] == dg[i] && dg[i] < 32);
        assert(forall|i: int| 52 <= i < 58 ==> bg[i] == cs[i - 52] && cs[i - 52] < 32);
    }
    // the pieces of the encoded string
    assert(forall|i: int| 0 <= i < n ==> s[i] == t[i]);
    assert(s[n as int] == '1');
    assert(forall|i: int| 0 <= i < 58 ==> s[n + 1 + i] == group_char(#[trigger] bg[i]));
    // every character is ASCII and only the separator is a '1'
    assert(is_ascii_chars(s)) by {
        assert(forall|i: int|
            0 <= i < s.len() ==> '\0' <= #[trigger] s[i] && s[i] <= '\u{7f}') by {
            assert(forall|i: int| 0 <= i < n ==> is_tag_char(#[trigger] s[i]));
            assert(forall|i: int|
                n + 1 <= i < s.len() ==> (#[trigger] s[i]) == group_char(bg[i - n - 1]) && bg[i - n
                    - 1] < 32);
        }
    }
    assert(forall|j: int| n < j < s.len() ==> #[trigger] s[j] != '1') by {
        assert(forall|i: int| 0 <= i < 58 ==> group_char(#[trigger] bg[i]) != '1');
    }
    lemma_last_sep_at(s, n as int);
    assert(s.subrange(0, n as int) =~= t);
    let body = s.subrange(n as int + 1, s.len() as int);
    assert(body =~= bchars);
    assert(body_valid(body)) by {
        assert(forall|i: int|
            0 <= i < 58 ==> char_group(#[trigger] bchars[i]) == Some(bg[i]));
    }
    assert(body_to_groups(body) =~= bg);
    assert(checksum_ok(tag_bytes(t), bg));
    assert(bg[51] == dg[51] && dg[51] & 15 == 0);
    assert(bg.take(52) =~= dg);
    lemma_groups_roundtrip(p);
}

/// A found separator really is one: it lies in range and is a `1`.
proof fn lemma_last_sep_props(s: Seq<char>)
    requires
        last_sep(s) >= 0,
    ensures
        0 <= last_sep(s) < s.len(),
        s[last_sep(s)] == '1',
    decreases s.len(),
{
    if s.len() > 0 && s[s.len() - 1] != '1' {
        lemma_last_sep_props(s.drop_last());
    }
}

/// The other direction of the bijection: a string that decodes is the
/// canonical encoding of what it decodes to. Together with
/// `lemma_encode_decode` this makes encoding and decoding mutually
/// inverse on well-formed inputs.
pub proof fn lemma_decode_encode(s: Seq<char>)
    requires
        decode_spec(s) is Ok,
    ensures
        valid_tag(decode_spec(s)->Ok_0.0),
        decode_spec(s)->Ok_0.1.len() == 32,
        s =~= encoded(decode_spec(s)->Ok_0.0, decode_spec(s)->Ok_0.1),
{
    lemma_charset_bijective();
    let sep = last_sep(s);
    lemma_last_sep_props(s);
    let t = s.subrange(0, sep);
    let body = s.subrange(sep + 1, s.len() as int);
    let gs = body_to_groups(body);
    let dg = gs.take(52);
    let cs = gs.skip(52);
    let p = bytes_of_groups(dg);
    assert(decode_spec(s)->Ok_0 == (t, p));
    // every body character stands for a group below 32
    assert(forall|i: int|
        0 <= i < 58 ==> char_group(body[i]) == Some(#[trigger] gs[i]) && gs[i] < 32 && body[i]
            == group_char(gs[i]));
    assert(all_groups(dg)) by {
        assert(forall|i: int| 0 <= i < 52 ==> #[trigger] dg[i] == gs[i]);
    }
    assert(dg[51] == gs[51] && dg[51] & 15 == 0);
    // the data part regroups to p and p cuts back to the data part
    lemma_bytes_roundtrip(dg);
    // the verifying checksum is the one the encoder writes
    assert(gs =~= dg + cs);
    assert(forall|i: int| 0 <= i < 6 ==> #[trigger] cs[i] == gs[52 + i] && cs[i] < 32);
    lemma_checksum_unique(tag_bytes(t), dg, cs);
    let bg = body_groups(t, p);
    assert(bg =~= gs) by {
        assert(data_groups(p) =~= dg);
        assert(checksum_groups(tag_bytes(t), data_groups(p)) =~= cs);
    }
    // the string is the canonical encoding, character by character
    let e = encoded(t, p);
    assert(e.len() == sep + 59 && s.len() == sep + 59);
    assert forall|i: int| 0 <= i < s.len() implies e[i] == s[i] by {
        if i < sep {
            assert(e[i] == t[i] && t[i] == s[i]);
        } else if i == sep {
            assert(e[i] == '1' && s[sep] == '1');
        } else {
            let jj = i - sep - 1;
            assert(e[i] == group_char(bg[jj]));
            assert(bg[jj] == gs[jj]);
            assert(body[jj] == s[i]);
        }
    }
    assert(s =~= e);
}

/// An ASCII string with no separator in it decodes to `MissingSeparator`.
pub proof fn lemma_missing_separator(s: Seq<char>)
    requires
        is_ascii_chars(s),
        forall|j: int| 0 <= j < s.len() ==> s[j] != '1',
    ensures
        decode_spec(s) == Err::<(Seq<char>, Seq<u8>), DecodingError>(
            DecodingError::MissingSeparator,
        ),
{
    lemma_last_sep_none(s);
}

/// A well-formed string whose checksum does not verify decodes to
/// `ChecksumMismatch`.
pub proof fn lemma_checksum_mismatch(s: Seq<char>)
    requires
        is_ascii_chars(s),
        last_sep(s) >= 0,
        valid_tag(s.subrange(0, last_sep(s))),
        body_valid(s.subrange(last_sep(s) + 1, s.len() as int)),
        s.len() - last_sep(s) - 1 >= 6,
        !checksum_ok(
            tag_bytes(s.subrange(0, last_sep(s))),
            body_to_groups(s.subrange(last_sep(s) + 1, s.len() as int)),
        ),
    ensures
        decode_spec(s) == Err::<(Seq<char>, Seq<u8>), DecodingError>(
            DecodingError::ChecksumMismatch,
        ),
{
}

/// A verifying body whose data part does not hold exactly 52 groups
/// regroups to fewer or more than 32 bytes and decodes to
/// `InvalidLength`.
pub proof fn lemma_wrong_length(s: Seq<char>)
    requires
        is_ascii_chars(s),
        last_sep(s) >= 0,
        valid_tag(s.subrange(0, last_sep(s))),
        body_valid(s.subrange(last_sep(s) + 1, s.len() as int)),
        s.len() - last_sep(s) - 1 >= 6,
        s.len() - last_sep(s) - 1 != 58,
    ensures
        decode_spec(s) is Err,
        decode_spec(s) == Err::<(Seq<char>, Seq<u8>), DecodingError>(DecodingError::InvalidLength)
            || decode_spec(s) == Err::<(Seq<char>, Seq<u8>), DecodingError>(
            DecodingError::ChecksumMismatch,
        ),
        checksum_ok(
            tag_bytes(s.subrange(0, last_sep(s))),
            body_to_groups(s.subrange(last_sep(s) + 1, s.len() as int)),
        ) ==> decode_spec(s) == Err::<(Seq<char>, Seq<u8>), DecodingError>(
            DecodingError::InvalidLength,
        ),
{
}

/// Copy a byte slice into a vector.
fn bytes_vec(s: &[u8]) -> (r: Vec<u8>)
    ensures
        r@ == s@,
{
    let mut r: Vec<u8> = Vec::new();
    let mut i: usize = 0;
    while i < s.len()
        invariant
            i <= s@.len(),
            r@.len() == i,
            forall|j: int| 0 <= j < i ==> r@[j] == s@[j],
        decreases s@.len() - i,
    {
        r.push(s[i]);
        i += 1;
    }
    proof {
        assert(r@ =~= s@);
    }
    r
}

/// Relies on `String::from_utf8`: ASCII bytes are valid UTF-8 and decode
/// to exactly one character per byte, each with the byte's code.
#[verifier::external_body]
fn ascii_string(bytes: Vec<u8>) -> (r: String)
    requires
        forall|i: int| 0 <= i < bytes@.len() ==> bytes@[i] < 128,
    ensures
        r@.len() == bytes@.len(),
        forall|i: int|
            0 <= i < bytes@.len() ==> #[trigger] r@[i] == ((bytes@[i] as u32) as char) && r@[i]
                as u32 == bytes@[i] as u32,
{
    String::from_utf8(bytes).unwrap()
}

/// Compute the polynomial remainder of a value sequence, seeded with 1.
fn polymod_exec(values: &Vec<u8>) -> (r: u32)
    ensures
        r == polymod(values@),
{
    let mut chk: u32 = 1;
    let mut i: usize = 0;
    while i < values.len()
        invariant
            i <= values@.len(),
            chk == polymod_from(1, values@.take(i as int)),
        decreases values@.len() - i,
    {
        let v = values[i];
        let top = chk >> 25;
        let mut c2 = ((chk & 0x1ffffff) << 5) ^ (v as u32);
        if top & 1 == 1 {
            c2 = c2 ^ 0x3b6a57b2;
        }
        if top & 2 == 2 {
            c2 = c2 ^ 0x26508e6d;
        }
        if top & 4 == 4 {
            c2 = c2 ^ 0x1ea119fa;
        }
        if top & 8 == 8 {
            c2 = c2 ^ 0x3d4233dd;
        }
        if top & 16 == 16 {
            c2 = c2 ^ 0x2a1462b3;
        }
        proof {
            assert(c2 == polymod_step(chk, v));
            let pre = values@.take(i as int);
            let one = seq![values@[i as int]];
            assert(values@.take(i + 1) =~= pre + one);
            lemma_polymod_from_append(1, pre, one);
            assert(one.drop_first() =~= Seq::<u8>::empty());
            assert(polymod_from(chk, one) == polymod_from(polymod_step(chk, v), one.drop_first()));
        }
        chk = c2;
        i += 1;
    }
    proof {
        assert(values@.take(values@.len() as int) =~= values@);
    }
    chk
}

/// Build the checksum input for a tag's bytes and a group sequence:
/// the expanded tag, the groups, and `extra` zero groups.
fn checksum_input(tb: &Vec<u8>, gs: &Vec<u8>, extra: usize) -> (r: Vec<u8>)
    requires
        tb@.len() <= 83,
        extra <= 6,
    ensures
        r@ == hrp_expand(tb@) + gs@ + zeros(extra as nat),
{
    let mut r: Vec<u8> = Vec::new();
    let n = tb.len();
    let mut i: usize = 0;
    while i < n
        invariant
            i <= n,
            n == tb@.len(),
            r@.len() == i,
            forall|j: int| 0 <= j < i ==> r@[j] == tb@[j] >> 5,
        decreases n - i,
    {
        r.push(tb[i] >> 5);
        i += 1;
    }
    r.push(0);
    let mut i: usize = 0;
    while i < n
        invariant
            i <= n,
            n == tb@.len(),
            r@.len() == n + 1 + i,
            forall|j: int| 0 <= j < n ==> r@[j] == tb@[j] >> 5,
            r@[n as int] == 0,
            forall|j: int| 0 <= j < i ==> r@[n + 1 + j] == tb@[j] & 31,
        decreases n - i,
    {
        r.push(tb[i] & 31);
        i += 1;
    }
    let m = gs.len();
    let mut i: usize = 0;
    while i < m
        invariant
            i <= m,
            m == gs@.len(),
            n == tb@.len(),
            r@.len() == 2 * n + 1 + i,
            r@.subrange(0, 2 * n + 1) =~= hrp_expand(tb@),
            forall|j: int| 0 <= j < i ==> r@[2 * n + 1 + j] == gs@[j],
        decreases m - i,
    {
        r.push(gs[i]);
        i += 1;
    }
    let mut i: usize = 0;
    while i < extra
        invariant
            i <= extra,
            m == gs@.len(),
            n == tb@.len(),
            r@.len() == 2 * n + 1 + m + i,
            r@.subrange(0, 2 * n + 1) =~= hrp_expand(tb@),
            forall|j: int| 0 <= j < m ==> r@[2 * n + 1 + j] == gs@[j],
            forall|j: int| 2 * n + 1 + m <= j < r@.len() ==> r@[j] == 0,
        decreases extra - i,
    {
        r.push(0);
        i += 1;
    }
    proof {
        assert(r@ =~= hrp_expand(tb@) + gs@ + zeros(extra as nat));
    }
    r
}

/// Encode a 32-byte payload under a tag into a checksummed address.
///
/// Fails exactly when the tag is not 1 to 83 lowercase ASCII letters.
pub fn encode(tag: &str, payload: &[u8; 32]) -> (r: Result<String, EncodingError>)
    ensures
        valid_tag(tag@) ==> r is Ok && r->Ok_0@ == encoded(tag@, payload@),
        !valid_tag(tag@) ==> r == Err::<String, EncodingError>(EncodingError {}),
{
    if !tag.is_ascii() {
        proof {
            let i = choose|i: int|
                0 <= i < tag@.len() && !('\0' <= tag@[i] && tag@[i] <= '\u{7f}');
            assert(!is_tag_char(tag@[i]));
        }
        return Err(EncodingError {});
    }
    let tb_slice = tag.as_bytes();
    proof {
        is_ascii_spec_bytes(tag);
    }
    let tb: Vec<u8> = bytes_vec(tb_slice);
    proof {
        assert(tb@ =~= tag_bytes(tag@));
    }
    if tb.len() == 0 || tb.len() > 83 {
        return Err(EncodingError {});
    }
    let mut i: usize = 0;
    while i < tb.len()
        invariant
            i <= tb@.len(),
            1 <= tb@.len() <= 83,
            tb@ == tag_bytes(tag@),
            is_ascii_chars(tag@),
            forall|j: int| 0 <= j < i ==> is_tag_char(#[trigger] tag@[j]),
        decreases tb@.len() - i,
    {
        let b = tb[i];
        if b < 97 || b > 122 {
            proof {
                assert(tag@[i as int] as u8 == b);
                assert((tag@[i as int] as u32) < 128);
                assert(!is_tag_char(tag@[i as int]));
            }
            return Err(EncodingError {});
        }
        proof {
            assert(tag@[i as int] as u8 == b);
            assert((tag@[i as int] as u32) < 128);
            assert(is_tag_char(tag@[i as int]));
        }
        i += 1;
    }
    let dgs = payload_to_groups(payload);
    let vals = checksum_input(&tb, &dgs, 6);
    let chk = polymod_exec(&vals);
    let x = chk ^ 1;
    proof {
        crate::checksum::lemma_polymod_from_range(1, vals@);
        assert(unpack6(x) == checksum_groups(tb@, dgs@));
        lemma_charset_bijective();
    }
    let mut out: Vec<u8> = Vec::new();
    let mut i: usize = 0;
    let n = tb.len();
    while i < n
        invariant
            i <= n,
            n == tb@.len(),
            out@.len() == i,
            forall|j: int| 0 <= j < i ==> out@[j] == tb@[j],
        decreases n - i,
    {
        out.push(tb[i]);
        i += 1;
    }
    out.push(49);
    let mut i: usize = 0;
    while i < 52
        invariant
            i <= 52,
            n == tb@.len(),
            dgs@.len() == 52,
            all_groups(dgs@),
            out@.len() == n + 1 + i,
            forall|j: int| 0 <= j < n ==> out@[j] == tb@[j],
            out@[n as int] == 49,
            forall|j: int|
                0 <= j < i ==> #[trigger] out@[n + 1 + j] == group_char(dgs@[j]) as u32,
        decreases 52 - i,
    {
        out.push(charset_byte(dgs[i]));
        i += 1;
    }
    let cs_vals: Vec<u8> = vec![
        ((x >> 25) & 31) as u8,
        ((x >> 20) & 31) as u8,
        ((x >> 15) & 31) as u8,
        ((x >> 10) & 31) as u8,
        ((x >> 5) & 31) as u8,
        (x & 31) as u8,
    ];
    proof {
        assert(((x >> 25) & 31) < 32 && ((x >> 20) & 31) < 32 && ((x >> 15) & 31) < 32 && ((x >> 10)
            & 31) < 32 && ((x >> 5) & 31) < 32 && (x & 31) < 32) by (bit_vector);
        assert(cs_vals@ =~= unpack6(x));
    }
    let mut i: usize = 0;
    while i < 6
        invariant
            i <= 6,
            n == tb@.len(),
            1 <= n <= 83,
            cs_vals@ == unpack6(x),
            forall|j: int| 0 <= j < 6 ==> #[trigger] cs_vals@[j] < 32,
            out@.len() == n + 53 + i,
            forall|j: int| 0 <= j < n ==> out@[j] == tb@[j],
            out@[n as int] == 49,
            forall|j: int| 0 <= j < 52 ==> #[trigger] out@[n + 1 + j] == group_char(dgs@[j]) as u32,
            forall|j: int|
                0 <= j < i ==> #[trigger] out@[n + 53 + j] == group_char(cs_vals@[j]) as u32,
        decreases 6 - i,
    {
        out.push(charset_byte(cs_vals[i]));
        i += 1;
    }
    proof {
        lemma_charset_bijective();
        assert forall|j: int| 0 <= j < out@.len() implies #[trigger] out@[j] < 128 by {
            let m = n as int;
            if j < m {
                assert(out@[j] == tb@[j] && tb@[j] <= 122);
            } else if j == m {
            } else if j < m + 53 {
                let jj = j - m - 1;
                assert(out@[m + 1 + jj] == group_char(dgs@[jj]) as u32);
                assert((group_char(dgs@[jj]) as u32) < 128);
            } else {
                let jj = j - m - 53;
                assert(out@[m + 53 + jj] == group_char(cs_vals@[jj]) as u32);
                assert((group_char(cs_vals@[jj]) as u32) < 128);
            }
        }
    }
    let s = ascii_string(out);
    proof {
        let m = n as int;
        let bg = body_groups(tag@, payload@);
        let e = encoded(tag@, payload@);
        assert(bg =~= dgs@ + unpack6(x));
        assert(e.len() == m + 59 && s@.len() == m + 59);
        assert forall|j: int| 0 <= j < s@.len() implies s@[j] == e[j] by {
            if j < m {
                assert(e[j] == tag@[j]);
                assert(out@[j] == tb@[j]);
                assert(s@[j] as u32 == tag@[j] as u32);
            } else if j == m {
                assert(e[j] == '1');
                assert(s@[j] as u32 == 49 && ('1' as u32) == 49);
            } else if j < m + 53 {
                let jj = j - m - 1;
                assert(e[j] == group_char(bg[jj]) && bg[jj] == dgs@[jj]);
                assert(out@[m + 1 + jj] == group_char(dgs@[jj]) as u32);
                assert(s@[j] as u32 == group_char(dgs@[jj]) as u32);
            } else {
                let jj = j - m - 53;
                assert(e[j] == group_char(bg[jj + 52]) && bg[jj + 52] == cs_vals@[jj]);
                assert(out@[m + 53 + jj] == group_char(cs_vals@[jj]) as u32);
                assert(s@[j] as u32 == group_char(cs_vals@[jj]) as u32);
            }
            char_u32_cast(e[j], e[j] as u32);
            char_u32_cast(s@[j], s@[j] as u32);
        }
        assert(s@ =~= e);
    }
    Ok(s)
}

/// Decode a checksummed address into its tag and 32-byte payload.
///
/// Returns exactly what `decode_spec` yields on the string's characters:
/// the checks and their order are stated there.
pub fn decode(addr: &str) -> (r: Result<(String, [u8; 32]), DecodingError>)
    ensures
        decode_spec(addr@) is Ok ==> r is Ok && r->Ok_0.0@ == decode_spec(addr@)->Ok_0.0
            && r->Ok_0.1@ == decode_spec(addr@)->Ok_0.1,
        decode_spec(addr@) is Err ==> r == Err::<(String, [u8; 32]), DecodingError>(
            decode_spec(addr@)->Err_0,
        ),
{
    if !addr.is_ascii() {
        return Err(DecodingError::InvalidCharacter);
    }
    let bs = addr.as_bytes();
    proof {
        is_ascii_spec_bytes(addr);
    }
    let b: Vec<u8> = bytes_vec(bs);
    let n = b.len();
    proof {
        assert(b@ =~= tag_bytes(addr@));
        assert forall|j: int| 0 <= j < n implies ((b@[j] == 49) <==> (#[trigger] addr@[j])
            == '1') by {
            char_u32_cast(addr@[j], addr@[j] as u32);
            char_u32_cast('1', 49);
        }
    }
    // find the last separator
    let mut sep: usize = 0;
    let mut found = false;
    let mut i: usize = 0;
    while i < n
        invariant
            i <= n,
            n == b@.len(),
            n == addr@.len(),
            forall|j: int| 0 <= j < n ==> ((b@[j] == 49) <==> (#[trigger] addr@[j]) == '1'),
            !found ==> forall|j: int| 0 <= j < i ==> b@[j] != 49,
            found ==> sep < i && b@[sep as int] == 49 && forall|j: int|
                sep < j < i ==> b@[j] != 49,
        decreases n - i,
    {
        if b[i] == 49 {
            sep = i;
            found = true;
        }
        i += 1;
    }
    if !found {
        proof {
            assert(forall|j: int| 0 <= j < n ==> addr@[j] != '1');
            lemma_last_sep_none(addr@);
        }
        return Err(DecodingError::MissingSeparator);
    }
    proof {
        assert(addr@[sep as int] == '1');
        assert(forall|j: int| sep < j < n ==> addr@[j] != '1');
        lemma_last_sep_at(addr@, sep as int);
    }
    let ghost t = addr@.subrange(0, sep as int);
    let ghost body = addr@.subrange(sep as int + 1, addr@.len() as int);
    if sep == 0 {
        return Err(DecodingError::TagEmpty);
    }
    if sep > 83 {
        return Err(DecodingError::TagTooLong);
    }
    // validate the tag and collect its bytes
    let mut tb: Vec<u8> = Vec::new();
    let mut i: usize = 0;
    while i < sep
        invariant
            i <= sep,
            1 <= sep <= 83,
            sep < n,
            n == b@.len(),
            n == addr@.len(),
            b@ == tag_bytes(addr@),
            is_ascii_chars(addr@),
            last_sep(addr@) == sep as int,
            t == addr@.subrange(0, sep as int),
            tb@.len() == i,
            forall|j: int| 0 <= j < i ==> tb@[j] == b@[j],
            forall|j: int| 0 <= j < i ==> is_tag_char(#[trigger] addr@[j]),
        decreases sep - i,
    {
        let v = b[i];
        if v < 97 || v > 122 {
            proof {
                assert(addr@[i as int] as u8 == v);
                assert((addr@[i as int] as u32) < 128);
                assert(!is_tag_char(addr@[i as int]));
                assert(!is_tag_char(t[i as int]));
            }
            return Err(DecodingError::InvalidCharacter);
        }
        proof {
            assert(addr@[i as int] as u8 == v);
            assert((addr@[i as int] as u32) < 128);
            assert(is_tag_char(addr@[i as int]));
        }
        tb.push(v);
        i += 1;
    }
    proof {
        assert(forall|j: int| 0 <= j < t.len() ==> is_tag_char(#[trigger] t[j]));
        assert(tb@ =~= tag_bytes(t));
    }
    // map the body characters back to groups
    let mut gs: Vec<u8> = Vec::new();
    let mut i: usize = sep + 1;
    while i < n
        invariant
            sep + 1 <= i <= n,
            1 <= sep <= 83,
            sep < n,
            n == b@.len(),
            n == addr@.len(),
            b@ == tag_bytes(addr@),
            is_ascii_chars(addr@),
            last_sep(addr@) == sep as int,
            t == addr@.subrange(0, sep as int),
            forall|j: int| 0 <= j < t.len() ==> is_tag_char(#[trigger] t[j]),
            body == addr@.subrange(sep as int + 1, addr@.len() as int),
            gs@.len() == i - sep - 1,
            forall|j: int|
                0 <= j < gs@.len() ==> char_group(#[trigger] body[j]) == Some(gs@[j]) && gs@[j] < 32,
        decreases n - i,
    {
        let g = byte_group(b[i]);
        proof {
            char_u32_cast(addr@[i as int], addr@[i as int] as u32);
            assert((b@[i as int] as u32) as char == addr@[i as int]);
            assert(body[i - sep - 1] == addr@[i as int]);
            lemma_charset_bijective();
        }
        match g {
            Some(v) => {
                gs.push(v);
            },
            None => {
                proof {
                    assert(char_group(body[i - sep - 1]) is None);
                    assert(!body_valid(body));
                }
                return Err(DecodingError::InvalidCharacter);
            },
        }
        i += 1;
    }
    proof {
        assert(body_valid(body));
        assert(gs@ =~= body_to_groups(body));
    }
    if gs.len() < 6 {
        return Err(DecodingError::InvalidLength);
    }
    // verify the checksum over the expanded tag and all body groups
    let vals = checksum_input(&tb, &gs, 0);
    proof {
        assert(vals@ =~= hrp_expand(tag_bytes(t)) + body_to_groups(body));
    }
    let chk = polymod_exec(&vals);
    if chk != 1 {
        return Err(DecodingError::ChecksumMismatch);
    }
    // the 52 data groups must carry exactly 32 bytes with zero padding
    if gs.len() != 58 {
        return Err(DecodingError::InvalidLength);
    }
    let mut dg: Vec<u8> = Vec::new();
    let mut i: usize = 0;
    while i < 52
        invariant
            i <= 52,
            gs@.len() == 58,
            forall|j: int| 0 <= j < gs@.len() ==> #[trigger] gs@[j] < 32,
            dg@.len() == i,
            forall|j: int| 0 <= j < i ==> dg@[j] == gs@[j],
        decreases 52 - i,
    {
        dg.push(gs[i]);
        i += 1;
    }
    proof {
        assert(dg@ =~= body_to_groups(body).take(52));
    }
    if dg[51] & 15 != 0 {
        return Err(DecodingError::InvalidLength);
    }
    let bytes = groups_to_bytes(&dg);
    let mut arr: [u8; 32] = [0u8; 32];
    let mut i: usize = 0;
    while i < 32
        invariant
            i <= 32,
            bytes@.len() == 32,
            bytes@ == bytes_of_groups(dg@),
            arr@.len() == 32,
            forall|j: int| 0 <= j < i ==> arr@[j] == bytes@[j],
        decreases 32 - i,
    {
        arr[i] = bytes[i];
        i += 1;
    }
    let ts = ascii_string(tb);
    proof {
        assert(arr@ =~= bytes_of_groups(body_to_groups(body).take(52)));
        assert forall|j: int| 0 <= j < t.len() implies ts@[j] == t[j] by {
            char_u32_cast(t[j], t[j] as u32);
            char_u32_cast(ts@[j], ts@[j] as u32);
        }
        assert(ts@ =~= t);
    }
    Ok((ts, arr))
}

} // verus!

