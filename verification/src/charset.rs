//! The restricted 32-character alphabet used by the address codec.
//!
//! Each 5-bit group (a value `0..32`) is written as one character drawn
//! from a set that excludes the visually ambiguous `1`, `b`, `i` and `o`.

use vstd::prelude::*;

verus! {

/// The character that stands for the 5-bit group `g`.
///
/// Total for convenience; only `g < 32` is meaningful.
pub open spec fn group_char(g: u8) -> char {
    if g == 0 {
        'q'
    } else if g == 1 {
        'p'
    } else if g == 2 {
        'z'
    } else if g == 3 {
        'r'
    } else if g == 4 {
        'y'
    } else if g == 5 {
        '9'
    } else if g == 6 {
        'x'
    } else if g == 7 {
        '8'
    } else if g == 8 {
        'g'
    } else if g == 9 {
        'f'
    } else if g == 10 {
        '2'
    } else if g == 11 {
        't'
    } else if g == 12 {
        'v'
    } else if g == 13 {
        'd'
    } else if g == 14 {
        'w'
    } else if g == 15 {
        '0'
    } else if g == 16 {
        's'
    } else if g == 17 {
        '3'
    } else if g == 18 {
        'j'
    } else if g == 19 {
        'n'
    } else if g == 20 {
        '5'
    } else if g == 21 {
        '4'
    } else if g == 22 {
        'k'
    } else if g == 23 {
        'h'
    } else if g == 24 {
        'c'
    } else if g == 25 {
        'e'
    } else if g == 26 {
        '6'
    } else if g == 27 {
        'm'
    } else if g == 28 {
        'u'
    } else if g == 29 {
        'a'
    } else if g == 30 {
        '7'
    } else {
        'l'
    }
}

/// The 5-bit group written as the character `c`, or `None` when `c` is
/// not part of the alphabet.
pub open spec fn char_group(c: char) -> Option<u8> {
    if c == 'q' {
        Some(0u8)
    } else if c == 'p' {
        Some(1u8)
    } else if c == 'z' {
        Some(2u8)
    } else if c == 'r' {
        Some(3u8)
    } else if c == 'y' {
        Some(4u8)
    } else if c == '9' {
        Some(5u8)
    } else if c == 'x' {
        Some(6u8)
    } else if c == '8' {
        Some(7u8)
    } else if c == 'g' {
        Some(8u8)
    } else if c == 'f' {
        Some(9u8)
    } else if c == '2' {
        Some(10u8)
    } else if c == 't' {
        Some(11u8)
    } else if c == 'v' {
        Some(12u8)
    } else if c == 'd' {
        Some(13u8)
    } else if c == 'w' {
        Some(14u8)
    } else if c == '0' {
        Some(15u8)
    } else if c == 's' {
        Some(16u8)
    } else if c == '3' {
        Some(17u8)
    } else if c == 'j' {
        Some(18u8)
    } else if c == 'n' {
        Some(19u8)
    } else if c == '5' {
        Some(20u8)
    } else if c == '4' {
        Some(21u8)
    } else if c == 'k' {
        Some(22u8)
    } else if c == 'h' {
        Some(23u8)
    } else if c == 'c' {
        Some(24u8)
    } else if c == 'e' {
        Some(25u8)
    } else if c == '6' {
        Some(26u8)
    } else if c == 'm' {
        Some(27u8)
    } else if c == 'u' {
        Some(28u8)
    } else if c == 'a' {
        Some(29u8)
    } else if c == '7' {
        Some(30u8)
    } else if c == 'l' {
        Some(31u8)
    } else {
        None
    }
}

/// Reading back the character of a group gives the group again, and every
/// alphabet character is a lowercase ASCII letter or digit.
pub proof fn lemma_charset_bijective()
    ensures
        forall|g: u8| #![trigger group_char(g)] g < 32 ==> char_group(group_char(g)) == Some(g),
        forall|c: char, g: u8| char_group(c) == Some(g) ==> g < 32 && group_char(g) == c,
        forall|g: u8|
            #![trigger group_char(g)]
            g < 32 ==> group_char(g) as u32 >= 48 && (group_char(g) as u32) < 128 && group_char(g)
                != '1',
{
}

/// The ASCII byte of the character that stands for the 5-bit group `g`.
pub fn charset_byte(g: u8) -> (r: u8)
    requires
        g < 32,
    ensures
        r == group_char(g) as u32,
        r < 128,
{
    let table: [u8; 32] = [
        113, 112, 122, 114, 121, 57, 120, 56, 103, 102, 50, 116, 118, 100, 119, 48, 115, 51, 106,
        110, 53, 52, 107, 104, 99, 101, 54, 109, 117, 97, 55, 108,
    ];
    let r = table[g as usize];
    proof {
        lemma_charset_bijective();
    }
    r
}

/// The 5-bit group written as the ASCII byte `b`, or `None` when `b` is
/// not the code of an alphabet character.
pub fn byte_group(b: u8) -> (r: Option<u8>)
    ensures
        b < 128 ==> r == char_group((b as u32) as char),
        b >= 128 ==> r is None,
{
    let r: Option<u8> = match b {
        113 => Some(0),
        112 => Some(1),
        122 => Some(2),
        114 => Some(3),
        121 => Some(4),
        57 => Some(5),
        120 => Some(6),
        56 => Some(7),
        103 => Some(8),
        102 => Some(9),
        50 => Some(10),
        116 => Some(11),
        118 => Some(12),
        100 => Some(13),
        119 => Some(14),
        48 => Some(15),
        115 => Some(16),
        51 => Some(17),
        106 => Some(18),
        110 => Some(19),
        53 => Some(20),
        52 => Some(21),
        107 => Some(22),
        104 => Some(23),
        99 => Some(24),
        101 => Some(25),
        54 => Some(26),
        109 => Some(27),
        117 => Some(28),
        97 => Some(29),
        55 => Some(30),
        108 => Some(31),
        _ => None,
    };
    r
}

} // verus!
