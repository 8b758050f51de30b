//! Constants of the base32 address format.
use vstd::prelude::*;

verus! {

/// Network id of the main network.
pub const MAINNET_ID: u64 = 1029;

/// Network id of the test network.
pub const TESTNET_ID: u64 = 1;

/// Version byte size codes: the low three bits of the version byte give the
/// length of the hash that follows it.
pub const SIZE_160: u8 = 0x00;
pub const SIZE_192: u8 = 0x01;
pub const SIZE_224: u8 = 0x02;
pub const SIZE_256: u8 = 0x03;
pub const SIZE_320: u8 = 0x04;
pub const SIZE_384: u8 = 0x05;
pub const SIZE_448: u8 = 0x06;
pub const SIZE_512: u8 = 0x07;

/// The bits of the version byte that hold the size code.
pub const SIZE_MASK: u8 = 0x07;

/// The bits of the version byte that must be zero.
pub const RESERVED_BITS_MASK: u8 = 0xf8;

/// Type bits (the high nibble of the first address byte) of each address kind.
pub const TYPE_BITS_BUILTIN: u8 = 0x00;
pub const TYPE_BITS_USER_ACCOUNT: u8 = 0x10;
pub const TYPE_BITS_CONTRACT: u8 = 0x80;

/// The 32 characters of the address alphabet, by digit value.
pub open spec fn spec_charset() -> Seq<char> {
    seq![
        'a', 'b', 'c', 'd', 'e', 'f', 'g', 'h', 'j', 'k', 'm', 'n', 'p', 'r', 's', 't',
        'u', 'v', 'w', 'x', 'y', 'z', '0', '1', '2', '3', '4', '5', '6', '7', '8', '9',
    ]
}

/// The digit value of a character of the alphabet; `None` for every other
/// character.
pub open spec fn spec_char_index(c: char) -> Option<u8> {
    if exists|i: int| 0 <= i < 32 && spec_charset()[i] == c {
        Some((choose|i: int| 0 <= i < 32 && spec_charset()[i] == c) as u8)
    } else {
        None
    }
}

/// The alphabet character of a digit value below 32.
pub fn charset(d: u8) -> (c: char)
    requires
        d < 32,
    ensures
        c == spec_charset()[d as int],
{
    match d {
        0 => 'a',
        1 => 'b',
        2 => 'c',
        3 => 'd',
        4 => 'e',
        5 => 'f',
        6 => 'g',
        7 => 'h',
        8 => 'j',
        9 => 'k',
        10 => 'm',
        11 => 'n',
        12 => 'p',
        13 => 'r',
        14 => 's',
        15 => 't',
        16 => 'u',
        17 => 'v',
        18 => 'w',
        19 => 'x',
        20 => 'y',
        21 => 'z',
        22 => '0',
        23 => '1',
        24 => '2',
        25 => '3',
        26 => '4',
        27 => '5',
        28 => '6',
        29 => '7',
        30 => '8',
        _ => '9',
    }
}

/// The characters of the alphabet are pairwise distinct.
pub proof fn lemma_charset_distinct()
    ensures
        forall|i: int, j: int|
            0 <= i < 32 && 0 <= j < 32 && i != j ==> spec_charset()[i] != spec_charset()[j],
{
    assert(spec_charset().len() == 32);
    assert forall|i: int, j: int|
        0 <= i < 32 && 0 <= j < 32 && i != j implies spec_charset()[i] != spec_charset()[j] by {
        assert(spec_charset()[i] as u32 != spec_charset()[j] as u32);
    }
}

/// Looking up the character of a digit gives the digit back.
pub proof fn lemma_char_index_charset(d: u8)
    requires
        d < 32,
    ensures
        spec_char_index(spec_charset()[d as int]) == Some(d),
{
    lemma_charset_distinct();
    let c = spec_charset()[d as int];
    assert(0 <= d < 32 && spec_charset()[d as int] == c);
    let i = choose|i: int| 0 <= i < 32 && spec_charset()[i] == c;
    assert(i == d);
}

/// The digit value of a character, for the characters of the alphabet.
pub fn char_index(c: char) -> (r: Option<u8>)
    ensures
        r == spec_char_index(c),
        r matches Some(d) ==> d < 32,
{
    let mut i: u8 = 0;
    while i < 32
        invariant
            i <= 32,
            forall|j: int| 0 <= j < i ==> spec_charset()[j] != c,
        decreases 32 - i,
    {
        if charset(i) == c {
            proof {
                lemma_char_index_charset(i);
            }
            return Some(i);
        }
        i = i + 1;
    }
    None
}

} // verus!
