//! Encoding of raw addresses into base32 address strings, and decoding back.
use vstd::prelude::*;
use crate::bits::{all_fit, groups_of, to_bits};
use crate::consts::{char_index, charset, spec_char_index, spec_charset};
use crate::network::{
    from_prefix_chars, parse_type_chars, spec_address_type, spec_from_prefix, spec_parse_type,
    spec_to_prefix, spec_type_name, to_prefix_chars, type_name_chars,
};
use crate::text::{
    all_ascii, append_chars, ascii_upper, chars_eq, chars_of, spec_split, split, string_of,
    to_ascii_upper,
};
use crate::types::{
    Address, AddressType, DecodedRawAddress, DecodingError, EncodingError, EncodingOptions,
    Network, OptionError, SpecDecodedAddress, SpecDecodingError, SpecOptionError,
};
use crate::utils::{
    checksum_digits, convert_bits, expand_prefix, padded_bits, polymod, spec_convert_bits,
    spec_expand_prefix, spec_polymod, zero_digits,
};

verus! {

/// The version byte of a raw address of the given length: the code of its
/// size; `None` for lengths that no code describes.
pub open spec fn spec_version_byte(len: nat) -> Option<u8> {
    if len == 20 {
        Some(0x00u8)
    } else if len == 24 {
        Some(0x01u8)
    } else if len == 28 {
        Some(0x02u8)
    } else if len == 32 {
        Some(0x03u8)
    } else if len == 40 {
        Some(0x04u8)
    } else if len == 48 {
        Some(0x05u8)
    } else if len == 56 {
        Some(0x06u8)
    } else if len == 64 {
        Some(0x07u8)
    } else {
        None
    }
}

/// The hash length that a size code stands for.
pub open spec fn spec_size_len(size: u8) -> nat {
    if size == 0 {
        20
    } else if size == 1 {
        24
    } else if size == 2 {
        28
    } else if size == 3 {
        32
    } else if size == 4 {
        40
    } else if size == 5 {
        48
    } else if size == 6 {
        56
    } else {
        64
    }
}

/// The 5-bit digits of the version byte followed by the raw address.
pub open spec fn spec_payload_digits(version: u8, raw: Seq<u8>) -> Seq<u8> {
    groups_of(padded_bits(to_bits(seq![version] + raw, 8), 5), 5)
}

/// Digits written with the address alphabet.
pub open spec fn spec_digit_chars(ds: Seq<u8>) -> Seq<char> {
    ds.map_values(|d: u8| spec_charset()[d as int])
}

/// The checksum of a payload under a prefix.
pub open spec fn spec_checksum(prefix: Seq<char>, digits: Seq<u8>) -> u64 {
    spec_polymod(spec_expand_prefix(prefix) + digits + zero_digits(8))
}

/// The `:type.` option tag.
pub open spec fn type_option_tag() -> Seq<char> {
    seq![':', 't', 'y', 'p', 'e', '.']
}

/// The base32 address of a raw address on a network.
pub open spec fn spec_encode(raw: Seq<u8>, network: Network, options: EncodingOptions) -> Result<
    Seq<char>,
    EncodingError,
> {
    match spec_version_byte(raw.len()) {
        None => Err(EncodingError::InvalidLength(raw.len() as usize)),
        Some(version) => match spec_to_prefix(network) {
            Err(e) => Err(e),
            Ok(prefix) => {
                let digits = spec_payload_digits(version, raw);
                let body = spec_digit_chars(digits) + spec_digit_chars(
                    checksum_digits(spec_checksum(prefix, digits)),
                );
                match options {
                    EncodingOptions::Simple => Ok(prefix + seq![':'] + body),
                    EncodingOptions::QrCode => match spec_address_type(raw) {
                        Err(e) => Err(e),
                        Ok(t) => Ok(
                            (prefix + type_option_tag() + spec_type_name(t) + seq![':']
                                + body).map_values(|c: char| ascii_upper(c)),
                        ),
                    },
                }
            },
        },
    }
}

fn version_byte(len: usize) -> (r: Option<u8>)
    ensures
        r == spec_version_byte(len as nat),
{
    match len {
        20 => Some(0x00u8),
        24 => Some(0x01u8),
        28 => Some(0x02u8),
        32 => Some(0x03u8),
        40 => Some(0x04u8),
        48 => Some(0x05u8),
        56 => Some(0x06u8),
        64 => Some(0x07u8),
        _ => None,
    }
}

/// Writes digits below 32 with the address alphabet.
fn digit_chars(ds: &[u8]) -> (r: Vec<char>)
    requires
        forall|i: int| 0 <= i < ds@.len() ==> ds@[i] < 32,
    ensures
        r@ == spec_digit_chars(ds@),
{
    let mut r: Vec<char> = Vec::new();
    let mut i: usize = 0;
    while i < ds.len()
        invariant
            i <= ds.len(),
            forall|j: int| 0 <= j < ds@.len() ==> ds@[j] < 32,
            r@ == spec_digit_chars(ds@.take(i as int)),
        decreases ds.len() - i,
    {
        r.push(charset(ds[i]));
        proof {
            assert(ds@.take(i + 1) =~= ds@.take(i as int).push(ds@[i as int]));
        }
        i = i + 1;
    }
    proof {
        assert(ds@.take(ds.len() as int) =~= ds@);
    }
    r
}

/// The eight checksum digits of a checksum.
fn checksum_digit_vec(c: u64) -> (r: Vec<u8>)
    ensures
        r@ == checksum_digits(c),
        forall|i: int| 0 <= i < r@.len() ==> r@[i] < 32,
{
    let mut r: Vec<u8> = Vec::new();
    let mut k: u64 = 0;
    while k < 8
        invariant
            k <= 8,
            r@ == checksum_digits(c).take(k as int),
            forall|i: int| 0 <= i < r@.len() ==> r@[i] < 32,
        decreases 8 - k,
    {
        let sh: u64 = 5 * (7 - k);
        let d = ((c >> sh) & 31u64) as u8;
        assert((((c >> sh) & 31u64) as u8) < 32) by (bit_vector);
        r.push(d);
        proof {
            assert(checksum_digits(c).take(k + 1) =~= checksum_digits(c).take(k as int).push(d));
        }
        k = k + 1;
    }
    proof {
        assert(checksum_digits(c).take(8) =~= checksum_digits(c));
    }
    r
}

/// Encodes a raw address (a hash of 20, 24, 28, 32, 40, 48, 56 or 64 bytes)
/// as a base32 address of a network.
pub fn cfx_addr_encode(raw: &[u8], network: Network, encoding_options: EncodingOptions) -> (r:
    Result<String, EncodingError>)
    ensures
        match r {
            Ok(s) => spec_encode(raw@, network, encoding_options) == Ok::<
                Seq<char>,
                EncodingError,
            >(s@),
            Err(e) => spec_encode(raw@, network, encoding_options) == Err::<
                Seq<char>,
                EncodingError,
            >(e),
        },
{
    let length = raw.len();
    let version = match version_byte(length) {
        Some(v) => v,
        None => {
            return Err(EncodingError::InvalidLength(length));
        },
    };
    let prefix = match to_prefix_chars(&network) {
        Ok(p) => p,
        Err(e) => {
            return Err(e);
        },
    };
    let mut payload: Vec<u8> = Vec::new();
    payload.push(version);
    let mut i: usize = 0;
    while i < raw.len()
        invariant
            i <= raw.len(),
            payload@ == seq![version] + raw@.take(i as int),
        decreases raw.len() - i,
    {
        payload.push(raw[i]);
        proof {
            assert(raw@.take(i + 1) =~= raw@.take(i as int).push(raw@[i as int]));
        }
        i = i + 1;
    }
    proof {
        assert(raw@.take(raw.len() as int) =~= raw@);
        assert forall|j: int| 0 <= j < payload@.len() implies ((#[trigger] payload@[j]) as u64)
            >> 8u64 == 0 by {
            let x = payload@[j];
            assert((x as u64) >> 8u64 == 0) by (bit_vector);
        }
    }
    let digits = match convert_bits(payload.as_slice(), 8, 5, true) {
        Ok(d) => d,
        Err(_) => {
            // padding never fails
            proof {
                assert(false);
            }
            return Err(EncodingError::InvalidLength(length));
        },
    };
    proof {
        assert forall|j: int| 0 <= j < digits@.len() implies digits@[j] < 32 by {
            let x = digits@[j];
            assert(all_fit(digits@, 5));
            assert((x as u64) >> 5u64 == 0 ==> x < 32) by (bit_vector);
        }
    }
    let payload_str = digit_chars(digits.as_slice());
    let mut checksum_input = expand_prefix(prefix.as_slice());
    let ghost expanded = checksum_input@;
    let mut j: usize = 0;
    while j < digits.len()
        invariant
            j <= digits.len(),
            checksum_input@ == expanded + digits@.take(j as int),
        decreases digits.len() - j,
    {
        checksum_input.push(digits[j]);
        proof {
            assert(digits@.take(j + 1) =~= digits@.take(j as int).push(digits@[j as int]));
        }
        j = j + 1;
    }
    let mut z: usize = 0;
    while z < 8
        invariant
            z <= 8,
            checksum_input@ == expanded + digits@ + zero_digits(z as nat),
        decreases 8 - z,
    {
        checksum_input.push(0u8);
        proof {
            assert(zero_digits((z + 1) as nat) =~= zero_digits(z as nat).push(0u8));
        }
        z = z + 1;
    }
    proof {
        assert(digits@.take(digits.len() as int) =~= digits@);
    }
    let checksum = polymod(checksum_input.as_slice());
    let check_digits = checksum_digit_vec(checksum);
    let checksum_str = digit_chars(check_digits.as_slice());
    let mut out: Vec<char> = Vec::new();
    match encoding_options {
        EncodingOptions::Simple => {
            append_chars(&mut out, prefix.as_slice());
            out.push(':');
            append_chars(&mut out, payload_str.as_slice());
            append_chars(&mut out, checksum_str.as_slice());
            proof {
                assert(out@ =~= prefix@ + seq![':'] + (payload_str@ + checksum_str@));
            }
            Ok(string_of(out.as_slice()))
        },
        EncodingOptions::QrCode => {
            let t = match AddressType::from_address(raw) {
                Ok(t) => t,
                Err(e) => {
                    return Err(e);
                },
            };
            let name = type_name_chars(t);
            append_chars(&mut out, prefix.as_slice());
            let tag = vec![':', 't', 'y', 'p', 'e', '.'];
            append_chars(&mut out, tag.as_slice());
            append_chars(&mut out, name.as_slice());
            out.push(':');
            append_chars(&mut out, payload_str.as_slice());
            append_chars(&mut out, checksum_str.as_slice());
            proof {
                assert(out@ =~= prefix@ + type_option_tag() + name@ + seq![':'] + (payload_str@
                    + checksum_str@));
            }
            let upper = to_ascii_upper(out.as_slice());
            Ok(string_of(upper.as_slice()))
        },
    }
}

/// Whether `char::is_lowercase` holds of a non-ASCII character (the
/// Unicode `Lowercase` property).
pub uninterp spec fn unicode_is_lowercase(c: char) -> bool;

/// Whether `char::is_uppercase` holds of a non-ASCII character (the
/// Unicode `Uppercase` property).
pub uninterp spec fn unicode_is_uppercase(c: char) -> bool;

/// What `str::to_lowercase` gives for a string that is not all ASCII.
pub uninterp spec fn unicode_to_lowercase(s: Seq<char>) -> Seq<char>;

/// Whether a character is lower case: for ASCII, exactly `a` to `z`.
pub open spec fn char_is_lowercase(c: char) -> bool {
    if (c as u32) < 128 {
        'a' <= c && c <= 'z'
    } else {
        unicode_is_lowercase(c)
    }
}

/// Whether a character is upper case: for ASCII, exactly `A` to `Z`.
pub open spec fn char_is_uppercase(c: char) -> bool {
    if (c as u32) < 128 {
        'A' <= c && c <= 'Z'
    } else {
        unicode_is_uppercase(c)
    }
}

/// The ASCII lower case of a character; other characters are unchanged.
pub open spec fn ascii_lower(c: char) -> char {
    if 'A' <= c && c <= 'Z' {
        ((c as u32) + 32) as char
    } else {
        c
    }
}

/// The lower case of a string: for an ASCII string, each character in
/// ASCII lower case.
pub open spec fn str_to_lowercase(s: Seq<char>) -> Seq<char> {
    if all_ascii(s) {
        s.map_values(|c: char| ascii_lower(c))
    } else {
        unicode_to_lowercase(s)
    }
}

/// Trusted: calls `char::is_lowercase`. For ASCII characters the result is
/// stated (exactly `a` to `z`); for others it is named.
#[verifier::external_body]
fn is_lowercase(c: char) -> (r: bool)
    ensures
        r == char_is_lowercase(c),
        (c as u32) >= 128 ==> r == unicode_is_lowercase(c),
{
    c.is_lowercase()
}

/// Trusted: calls `char::is_uppercase`. For ASCII characters the result is
/// stated (exactly `A` to `Z`); for others it is named.
#[verifier::external_body]
fn is_uppercase(c: char) -> (r: bool)
    ensures
        r == char_is_uppercase(c),
        (c as u32) >= 128 ==> r == unicode_is_uppercase(c),
{
    c.is_uppercase()
}

/// Trusted: calls `str::to_lowercase`. For an ASCII string the result is
/// stated (each character in ASCII lower case); for others it is named.
#[verifier::external_body]
fn to_lowercase(s: &str) -> (r: String)
    ensures
        r@ == str_to_lowercase(s@),
        !all_ascii(s@) ==> r@ == unicode_to_lowercase(s@),
{
    s.to_lowercase()
}

/// Whether a string holds both a lower case and an upper case character.
pub open spec fn mixed_case(s: Seq<char>) -> bool {
    &&& exists|i: int| 0 <= i < s.len() && char_is_lowercase(#[trigger] s[i])
    &&& exists|i: int| 0 <= i < s.len() && char_is_uppercase(#[trigger] s[i])
}

/// Whether a string holds both a lower case and an upper case character.
fn has_mixed_case(s: &[char]) -> (r: bool)
    ensures
        r == mixed_case(s@),
{
    let mut lower = false;
    let mut upper = false;
    let mut i: usize = 0;
    while i < s.len()
        invariant
            i <= s.len(),
            lower == exists|j: int| 0 <= j < i && char_is_lowercase(#[trigger] s@[j]),
            upper == exists|j: int| 0 <= j < i && char_is_uppercase(#[trigger] s@[j]),
        decreases s.len() - i,
    {
        let c = s[i];
        if is_lowercase(c) {
            lower = true;
        }
        if is_uppercase(c) {
            upper = true;
        }
        i = i + 1;
    }
    lower && upper
}

/// The `type` option key.
pub open spec fn type_key() -> Seq<char> {
    seq!['t', 'y', 'p', 'e']
}

/// One option applied to the address type read so far.
pub open spec fn spec_option_step(opt: Seq<char>, acc: Option<AddressType>) -> Result<
    Option<AddressType>,
    SpecDecodingError,
> {
    let kv = spec_split(opt, '.');
    if kv.len() != 2 {
        Err(SpecDecodingError::InvalidOption(SpecOptionError::ParseError(opt)))
    } else if kv[0] == type_key() {
        match spec_parse_type(kv[1]) {
            Err(e) => Err(e),
            Ok(t) => Ok(Some(t)),
        }
    } else {
        Ok(acc)
    }
}

/// The options in order: each must be `key.value`; the last `type` option
/// gives the address type; other keys are ignored.
pub open spec fn spec_options(opts: Seq<Seq<char>>) -> Result<Option<AddressType>, SpecDecodingError>
    decreases opts.len(),
{
    if opts.len() == 0 {
        Ok(None)
    } else {
        match spec_options(opts.drop_last()) {
            Err(e) => Err(e),
            Ok(acc) => spec_option_step(opts.last(), acc),
        }
    }
}

/// The digit values of the payload characters; the first character outside
/// the alphabet is an error.
pub open spec fn spec_payload_values(s: Seq<char>) -> Result<Seq<u8>, SpecDecodingError>
    decreases s.len(),
{
    if s.len() == 0 {
        Ok(Seq::empty())
    } else {
        match spec_payload_values(s.drop_last()) {
            Err(e) => Err(e),
            Ok(r) => match spec_char_index(s.last()) {
                None => Err(SpecDecodingError::InvalidChar(s.last())),
                Some(d) => Ok(r.push(d)),
            },
        }
    }
}

/// What decoding comes to: an error, a failure of the decoding algorithm, or
/// a decoded address.
pub enum DecodeOutcome {
    Failed(SpecDecodingError),
    Panics,
    Decoded(SpecDecodedAddress),
}

/// The address type of a 20-byte address as the check of the `type` option
/// sees it.
pub open spec fn spec_type_of_hex(body: Seq<u8>) -> Result<AddressType, ()> {
    match spec_address_type(body) {
        Ok(t) => Ok(t),
        Err(_) => Err(()),
    }
}

/// Decoding of the lower-cased address `lower`; `orig` is the address as
/// given.
pub open spec fn spec_decode_lower(orig: Seq<char>, lower: Seq<char>) -> DecodeOutcome {
    let parts = spec_split(lower, ':');
    if parts.len() < 2 {
        DecodeOutcome::Failed(SpecDecodingError::NoPrefix)
    } else {
        let prefix = parts[0];
        match spec_from_prefix(prefix) {
            Err(e) => DecodeOutcome::Failed(e),
            Ok(network) => match spec_options(parts.subrange(1, parts.len() - 1)) {
                Err(e) => DecodeOutcome::Failed(e),
                Ok(address_type) => {
                    let payload = parts.last();
                    if payload.len() == 0 {
                        DecodeOutcome::Failed(SpecDecodingError::InvalidLength(0))
                    } else if mixed_case(payload) {
                        DecodeOutcome::Failed(SpecDecodingError::MixedCase)
                    } else {
                        match spec_payload_values(payload) {
                            Err(e) => DecodeOutcome::Failed(e),
                            Ok(p5) => {
                                let c = spec_polymod(spec_expand_prefix(prefix) + p5);
                                if c != 0 {
                                    DecodeOutcome::Failed(SpecDecodingError::ChecksumFailed(c))
                                } else if p5.len() < 8 {
                                    DecodeOutcome::Panics
                                } else {
                                    match spec_convert_bits(p5.take(p5.len() - 8), 5, 8, false) {
                                        Err(e) => DecodeOutcome::Failed(e),
                                        Ok(bytes) => if bytes.len() == 0 {
                                            DecodeOutcome::Panics
                                        } else {
                                            spec_decode_version(orig, network, address_type, bytes)
                                        },
                                    }
                                }
                            },
                        }
                    }
                },
            },
        }
    }
}

/// The checks of the version byte and of the address type, and the result.
pub open spec fn spec_decode_version(
    orig: Seq<char>,
    network: Network,
    address_type: Option<AddressType>,
    bytes: Seq<u8>,
) -> DecodeOutcome {
    let version = bytes[0];
    let body = bytes.skip(1);
    let size = version & 0x07u8;
    if body.len() != spec_size_len(size) {
        DecodeOutcome::Failed(SpecDecodingError::InvalidLength(body.len() as usize))
    } else if version & 0xf8u8 != 0 {
        DecodeOutcome::Failed(SpecDecodingError::VersionNotRecognized(version))
    } else {
        let decoded = SpecDecodedAddress {
            input_base32_address: orig,
            parsed_address_bytes: body,
            hex_address: if size == 0 {
                Some(body)
            } else {
                None
            },
            network,
        };
        match address_type {
            Some(expected) => if size == 0 && spec_type_of_hex(body) != Ok::<AddressType, ()>(
                expected,
            ) {
                DecodeOutcome::Failed(
                    SpecDecodingError::InvalidOption(
                        SpecOptionError::AddressTypeMismatch {
                            expected,
                            got: spec_type_of_hex(body),
                        },
                    ),
                )
            } else {
                DecodeOutcome::Decoded(decoded)
            },
            None => DecodeOutcome::Decoded(decoded),
        }
    }
}

/// Decoding of the address `s`.
pub open spec fn spec_decode(s: Seq<char>) -> DecodeOutcome {
    if mixed_case(s) {
        DecodeOutcome::Failed(SpecDecodingError::MixedCase)
    } else {
        spec_decode_lower(s, str_to_lowercase(s))
    }
}

/// A decoding result and the outcome it stands for.
pub open spec fn decode_result_is(r: Result<DecodedRawAddress, DecodingError>, o: DecodeOutcome) -> bool {
    match r {
        Ok(a) => o == DecodeOutcome::Decoded(a@),
        Err(e) => o == DecodeOutcome::Failed(e@),
    }
}

/// Applies the options `parts[1..parts.len() - 1]`.
fn decode_options(parts: &Vec<Vec<char>>) -> (r: Result<Option<AddressType>, DecodingError>)
    requires
        parts@.len() >= 2,
    ensures
        ({
            let opts = parts@.subrange(1, parts@.len() - 1).map_values(|p: Vec<char>| p@);
            match r {
                Ok(t) => spec_options(opts) == Ok::<Option<AddressType>, SpecDecodingError>(t),
                Err(e) => spec_options(opts) == Err::<Option<AddressType>, SpecDecodingError>(e@),
            }
        }),
{
    let ghost all = parts@.subrange(1, parts@.len() - 1).map_values(|p: Vec<char>| p@);
    let type_key_chars = vec!['t', 'y', 'p', 'e'];
    let mut address_type: Option<AddressType> = None;
    let mut i: usize = 1;
    let last = parts.len() - 1;
    proof {
        assert(all.take(0) =~= Seq::<Seq<char>>::empty());
    }
    while i < last
        invariant
            1 <= i <= last,
            last == parts@.len() - 1,
            all == parts@.subrange(1, parts@.len() - 1).map_values(|p: Vec<char>| p@),
            type_key_chars@ == type_key(),
            spec_options(all.take(i - 1)) == Ok::<Option<AddressType>, SpecDecodingError>(
                address_type,
            ),
        decreases last - i,
    {
        let opt = &parts[i];
        proof {
            assert(all.take(i as int).drop_last() =~= all.take(i - 1));
            assert(all.take(i as int).last() == opt@);
        }
        let kv = split(opt.as_slice(), '.');
        if kv.len() != 2 {
            proof {
                lemma_options_prefix_error(all, i as int);
            }
            return Err(
                DecodingError::InvalidOption(OptionError::ParseError(string_of(opt.as_slice()))),
            );
        }
        if chars_eq(kv[0].as_slice(), type_key_chars.as_slice()) {
            match parse_type_chars(kv[1].as_slice()) {
                Ok(t) => {
                    address_type = Some(t);
                },
                Err(e) => {
                    proof {
                        lemma_options_prefix_error(all, i as int);
                    }
                    return Err(e);
                },
            }
        }
        i = i + 1;
    }
    proof {
        assert(all.take(last - 1) =~= all);
    }
    Ok(address_type)
}

/// An error in the first options is the error of all of them.
proof fn lemma_options_prefix_error(opts: Seq<Seq<char>>, n: int)
    requires
        0 <= n <= opts.len(),
        spec_options(opts.take(n)) is Err,
    ensures
        spec_options(opts) == spec_options(opts.take(n)),
    decreases opts.len(),
{
    if n < opts.len() {
        assert(opts.drop_last().take(n) =~= opts.take(n));
        lemma_options_prefix_error(opts.drop_last(), n);
    } else {
        assert(opts.take(n) =~= opts);
    }
}

/// The digit values of the payload characters.
fn payload_values(s: &[char]) -> (r: Result<Vec<u8>, DecodingError>)
    ensures
        match r {
            Ok(v) => spec_payload_values(s@) == Ok::<Seq<u8>, SpecDecodingError>(v@),
            Err(e) => spec_payload_values(s@) == Err::<Seq<u8>, SpecDecodingError>(e@),
        },
        r matches Ok(v) ==> all_fit(v@, 5),
{
    let mut values: Vec<u8> = Vec::new();
    let mut i: usize = 0;
    proof {
        assert(s@.take(0) =~= Seq::<char>::empty());
    }
    while i < s.len()
        invariant
            i <= s.len(),
            spec_payload_values(s@.take(i as int)) == Ok::<Seq<u8>, SpecDecodingError>(values@),
            all_fit(values@, 5),
        decreases s.len() - i,
    {
        let c = s[i];
        proof {
            assert(s@.take(i + 1).drop_last() =~= s@.take(i as int));
            assert(s@.take(i + 1).last() == c);
        }
        match char_index(c) {
            Some(d) => {
                let ghost old_values = values@;
                values.push(d);
                proof {
                    assert forall|j: int| 0 <= j < values@.len() implies ((
                    #[trigger] values@[j]) as u64) >> 5u64 == 0 by {
                        if j < old_values.len() {
                            assert(values@[j] == old_values[j]);
                        } else {
                            assert(d < 32 ==> (d as u64) >> 5u64 == 0) by (bit_vector);
                        }
                    }
                }
            },
            None => {
                proof {
                    if s@.len() > i + 1 {
                        lemma_payload_values_prefix_error(s@, i + 1);
                    } else {
                        assert(s@.take(i + 1) =~= s@);
                    }
                }
                return Err(DecodingError::InvalidChar(c));
            },
        }
        i = i + 1;
    }
    proof {
        assert(s@.take(s.len() as int) =~= s@);
    }
    Ok(values)
}

/// An error in a prefix of the payload is the error of the whole payload.
proof fn lemma_payload_values_prefix_error(s: Seq<char>, n: int)
    requires
        0 <= n <= s.len(),
        spec_payload_values(s.take(n)) is Err,
    ensures
        spec_payload_values(s) == spec_payload_values(s.take(n)),
    decreases s.len(),
{
    if n < s.len() {
        assert(s.drop_last().take(n) =~= s.take(n));
        lemma_payload_values_prefix_error(s.drop_last(), n);
    } else {
        assert(s.take(n) =~= s);
    }
}

/// Copies `s[from..to]`.
fn copy_range(s: &[u8], from: usize, to: usize) -> (r: Vec<u8>)
    requires
        from <= to <= s@.len(),
    ensures
        r@ == s@.subrange(from as int, to as int),
{
    let mut r: Vec<u8> = Vec::new();
    let mut i: usize = from;
    while i < to
        invariant
            from <= i <= to,
            to <= s@.len(),
            r@ == s@.subrange(from as int, i as int),
        decreases to - i,
    {
        r.push(s[i]);
        proof {
            assert(s@.subrange(from as int, i + 1) =~= s@.subrange(from as int, i as int).push(
                s@[i as int],
            ));
        }
        i = i + 1;
    }
    r
}

/// The 20-byte address made of `body`.
fn address_of(body: &[u8]) -> (r: Address)
    requires
        body@.len() == 20,
    ensures
        r.0@ == body@,
{
    let mut a = [0u8; 20];
    let mut i: usize = 0;
    while i < 20
        invariant
            i <= 20,
            body@.len() == 20,
            forall|j: int| 0 <= j < i ==> a@[j] == body@[j],
        decreases 20 - i,
    {
        a[i] = body[i];
        i = i + 1;
    }
    proof {
        assert(a@ =~= body@);
    }
    Address(a)
}

/// Decodes an address from its lower-cased writing `lower`, where the
/// decoding algorithm does not fail; `None` where it does.
fn try_decode_lowercase(addr_str: &str, lower: &[char]) -> (r: Option<
    Result<DecodedRawAddress, DecodingError>,
>)
    ensures
        r is None <==> spec_decode_lower(addr_str@, lower@) == DecodeOutcome::Panics,
        r matches Some(res) ==> decode_result_is(res, spec_decode_lower(addr_str@, lower@)),
{
    let parts = split(lower, ':');
    let ghost sp = spec_split(lower@, ':');
    if parts.len() < 2 {
        return Some(Err(DecodingError::NoPrefix));
    }
    let prefix = &parts[0];
    let network = match from_prefix_chars(prefix.as_slice()) {
        Ok(n) => n,
        Err(e) => {
            return Some(Err(e));
        },
    };
    proof {
        assert(parts@.subrange(1, parts@.len() - 1).map_values(|p: Vec<char>| p@) =~= sp.subrange(
            1,
            sp.len() - 1,
        ));
    }
    let address_type = match decode_options(&parts) {
        Ok(t) => t,
        Err(e) => {
            return Some(Err(e));
        },
    };
    let payload_str = &parts[parts.len() - 1];
    assert(payload_str@ == sp.last());
    if payload_str.len() == 0 {
        return Some(Err(DecodingError::InvalidLength(0)));
    }
    if has_mixed_case(payload_str.as_slice()) {
        return Some(Err(DecodingError::MixedCase));
    }
    let payload_5_bits = match payload_values(payload_str.as_slice()) {
        Ok(v) => v,
        Err(e) => {
            return Some(Err(e));
        },
    };
    let mut checksum_input = expand_prefix(prefix.as_slice());
    let ghost expanded = checksum_input@;
    let mut j: usize = 0;
    while j < payload_5_bits.len()
        invariant
            j <= payload_5_bits.len(),
            checksum_input@ == expanded + payload_5_bits@.take(j as int),
        decreases payload_5_bits.len() - j,
    {
        checksum_input.push(payload_5_bits[j]);
        proof {
            assert(payload_5_bits@.take(j + 1) =~= payload_5_bits@.take(j as int).push(
                payload_5_bits@[j as int],
            ));
        }
        j = j + 1;
    }
    proof {
        assert(payload_5_bits@.take(payload_5_bits.len() as int) =~= payload_5_bits@);
    }
    let checksum = polymod(checksum_input.as_slice());
    if checksum != 0 {
        return Some(Err(DecodingError::ChecksumFailed(checksum)));
    }
    let len_5_bit = payload_5_bits.len();
    if len_5_bit < 8 {
        return None;
    }
    let data = copy_range(payload_5_bits.as_slice(), 0, len_5_bit - 8);
    proof {
        assert(data@ =~= payload_5_bits@.take(len_5_bit - 8));
        assert forall|k: int| 0 <= k < data@.len() implies ((#[trigger] data@[k]) as u64)
            >> 5u64 == 0 by {
            assert(data@[k] == payload_5_bits@[k]);
        }
    }
    let payload = match convert_bits(data.as_slice(), 5, 8, false) {
        Ok(p) => p,
        Err(e) => {
            return Some(Err(e));
        },
    };
    if payload.len() == 0 {
        return None;
    }
    let version = payload[0];
    let body = copy_range(payload.as_slice(), 1, payload.len());
    proof {
        assert(body@ =~= payload@.skip(1));
    }
    let body_len = body.len();
    let version_size = version & 0x07u8;
    let expected_len: usize = match version_size {
        0 => 20,
        1 => 24,
        2 => 28,
        3 => 32,
        4 => 40,
        5 => 48,
        6 => 56,
        _ => 64,
    };
    if body_len != expected_len {
        return Some(Err(DecodingError::InvalidLength(body_len)));
    }
    if version & 0xf8u8 != 0 {
        return Some(Err(DecodingError::VersionNotRecognized(version)));
    }
    let hex_address = if version_size == 0 {
        let hex = address_of(body.as_slice());
        match address_type {
            Some(expected) => {
                let got: Result<AddressType, ()> = match AddressType::from_address(&hex.0) {
                    Ok(t) => Ok(t),
                    Err(_) => Err(()),
                };
                let matches = match got {
                    Ok(t) => t == expected,
                    Err(_) => false,
                };
                if !matches {
                    return Some(Err(
                        DecodingError::InvalidOption(
                            OptionError::AddressTypeMismatch { expected, got },
                        ),
                    ));
                }
            },
            None => {},
        }
        Some(hex)
    } else {
        None
    };
    Some(
        Ok(
            DecodedRawAddress {
                input_base32_address: String::from_str(addr_str),
                parsed_address_bytes: body,
                hex_address,
                network,
            },
        ),
    )
}

/// Decodes an address from its lower-cased writing `lower` (what
/// `str::to_lowercase` gives for `addr_str`); `addr_str` is the address as
/// given, which the result carries.
pub fn decode_lowercase(addr_str: &str, lower: &[char]) -> (r: Result<
    DecodedRawAddress,
    DecodingError,
>)
    requires
        spec_decode_lower(addr_str@, lower@) != DecodeOutcome::Panics,
    ensures
        decode_result_is(r, spec_decode_lower(addr_str@, lower@)),
{
    match try_decode_lowercase(addr_str, lower) {
        Some(r) => r,
        None => {
            proof {
                assert(false);
            }
            Err(DecodingError::NoPrefix)
        },
    }
}

/// Whether the decoding algorithm fails on an address: its checksum
/// verifies, but the payload is too short to hold the checksum and a version
/// byte.
pub open spec fn decode_panics(s: Seq<char>) -> bool {
    spec_decode(s) == DecodeOutcome::Panics
}

/// Decodes a base32 address: its network, its hash, and, for a 160-bit hash,
/// the 20-byte address.
pub fn cfx_addr_decode(addr_str: &str) -> (r: Result<DecodedRawAddress, DecodingError>)
    requires
        !decode_panics(addr_str@),
    ensures
        decode_result_is(r, spec_decode(addr_str@)),
{
    let chars = chars_of(addr_str);
    if has_mixed_case(chars.as_slice()) {
        return Err(DecodingError::MixedCase);
    }
    let lowercase = to_lowercase(addr_str);
    let lower = chars_of(lowercase.as_str());
    decode_lowercase(addr_str, lower.as_slice())
}

/// Decodes a base32 address where the decoding algorithm does not fail on
/// it; `None` where it does (see `decode_panics`).
pub fn cfx_addr_decode_checked(addr_str: &str) -> (r: Option<
    Result<DecodedRawAddress, DecodingError>,
>)
    ensures
        r is None <==> decode_panics(addr_str@),
        r matches Some(res) ==> decode_result_is(res, spec_decode(addr_str@)),
{
    let chars = chars_of(addr_str);
    if !has_mixed_case(chars.as_slice()) {
        let lowercase = to_lowercase(addr_str);
        let lower = chars_of(lowercase.as_str());
        if try_decode_lowercase(addr_str, lower.as_slice()).is_none() {
            return None;
        }
    }
    Some(cfx_addr_decode(addr_str))
}

} // verus!
