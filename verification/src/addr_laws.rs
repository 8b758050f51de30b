//! Laws of the address format: decoding an encoded address gives back the
//! raw address and the network.
use vstd::prelude::*;
use crate::addr::{
    ascii_lower, char_is_lowercase, char_is_uppercase, mixed_case, spec_decode, spec_decode_lower,
    spec_digit_chars, spec_encode, spec_options, spec_option_step, spec_payload_digits,
    spec_payload_values, spec_size_len, spec_version_byte, spec_checksum, spec_decode_version,
    str_to_lowercase, type_key, type_option_tag, DecodeOutcome,
};
use crate::bits::{
    all_fit, bits_value, groups_of, lemma_bits_of_value, lemma_bits_of_zero,
    lemma_groups_of_to_bits, lemma_to_bits_groups_of, lemma_to_bits_len, to_bits, zeros,
};
use crate::consts::{lemma_char_index_charset, spec_char_index, spec_charset};
use crate::network::{
    mainnet_prefix, network_id_prefix, spec_address_type, spec_from_prefix, spec_parse_type,
    spec_to_prefix, spec_type_name, testnet_prefix,
};
use crate::text::{
    all_ascii, all_digits, ascii_upper, is_digit, lemma_decimal, lemma_split_concat,
    lemma_split_len, lemma_split_none,
    parse_body, spec_decimal, spec_parse_u64, spec_split,
};
use crate::types::{AddressType, EncodingOptions, Network, SpecDecodedAddress};
use crate::utils::{
    checksum_digits, lemma_checksum_unique, lemma_checksum_verifies, padded_bits, spec_convert_bits,
    spec_expand_prefix, spec_polymod, zero_digits,
};

verus! {

/// A lower case ASCII letter or a decimal digit.
pub open spec fn lower_alnum(c: char) -> bool {
    ('a' <= c && c <= 'z') || ('0' <= c && c <= '9')
}

/// Every character is a lower case ASCII letter or a decimal digit.
pub open spec fn all_lower_alnum(s: Seq<char>) -> bool {
    forall|i: int| 0 <= i < s.len() ==> lower_alnum(#[trigger] s[i])
}

/// Every character is a lower case ASCII letter, a digit, `:` or `.`.
pub open spec fn all_plain(s: Seq<char>) -> bool {
    forall|i: int|
        0 <= i < s.len() ==> lower_alnum(#[trigger] s[i]) || s[i] == ':' || s[i] == '.'
}

/// The alphabet characters are lower case letters and digits.
pub proof fn lemma_digit_chars_plain(ds: Seq<u8>)
    requires
        forall|i: int| 0 <= i < ds.len() ==> ds[i] < 32,
    ensures
        all_lower_alnum(spec_digit_chars(ds)),
        spec_digit_chars(ds).len() == ds.len(),
{
    assert forall|i: int| 0 <= i < spec_digit_chars(ds).len() implies lower_alnum(
        #[trigger] spec_digit_chars(ds)[i],
    ) by {
        let d = ds[i];
        assert(d < 32);
        assert(lower_alnum(spec_charset()[d as int]));
    }
}

/// Reading the alphabet characters of digits gives the digits.
pub proof fn lemma_payload_values_digit_chars(ds: Seq<u8>)
    requires
        forall|i: int| 0 <= i < ds.len() ==> ds[i] < 32,
    ensures
        spec_payload_values(spec_digit_chars(ds)) == Ok::<Seq<u8>, crate::types::SpecDecodingError>(
            ds,
        ),
    decreases ds.len(),
{
    if ds.len() > 0 {
        let p = ds.drop_last();
        lemma_payload_values_digit_chars(p);
        let s = spec_digit_chars(ds);
        assert(s.drop_last() =~= spec_digit_chars(p));
        assert(ds.last() == ds[ds.len() - 1]);
        lemma_char_index_charset(ds.last());
        assert(p.push(ds.last()) =~= ds);
        assert(s.last() == spec_charset()[ds.last() as int]);
    } else {
        assert(spec_digit_chars(ds) =~= Seq::<char>::empty());
        assert(ds =~= Seq::<u8>::empty());
    }
}

/// A network prefix reads back as its network.
pub proof fn lemma_prefix_roundtrip(n: Network)
    requires
        spec_to_prefix(n) is Ok,
    ensures
        spec_from_prefix(spec_to_prefix(n)->Ok_0) == Ok::<Network, crate::types::SpecDecodingError>(
            n,
        ),
        all_lower_alnum(spec_to_prefix(n)->Ok_0),
        spec_to_prefix(n)->Ok_0.len() > 0,
{
    match n {
        Network::Main => {},
        Network::Test => {
            assert(testnet_prefix() != mainnet_prefix()) by {
                assert(testnet_prefix().len() != mainnet_prefix().len());
            }
        },
        Network::Id(id) => {
            let d = spec_decimal(id as nat);
            let p = network_id_prefix() + d;
            lemma_decimal(id as nat);
            assert(p != mainnet_prefix()) by {
                assert(p[0] != mainnet_prefix()[0]);
            }
            assert(p != testnet_prefix()) by {
                assert(p[0] != testnet_prefix()[0]);
            }
            assert(p.take(3) =~= network_id_prefix());
            assert(p.skip(3) =~= d);
            assert(d[0] != '+') by {
                assert(is_digit(d[0]));
            }
            assert(parse_body(d) == d);
            assert(all_digits(d));
            assert(spec_parse_u64(d) == Some(id));
            assert forall|i: int| 0 <= i < p.len() implies lower_alnum(#[trigger] p[i]) by {
                if i >= 3 {
                    assert(p[i] == d[i - 3]);
                    assert(is_digit(d[i - 3]));
                }
            }
        },
    }
}

/// An address type name reads back as its address type.
pub proof fn lemma_type_name_roundtrip(t: AddressType)
    ensures
        spec_parse_type(spec_type_name(t)) == Ok::<AddressType, crate::types::SpecDecodingError>(
            t,
        ),
        all_lower_alnum(spec_type_name(t)),
{
    let b = spec_type_name(AddressType::Builtin);
    let c = spec_type_name(AddressType::Contract);
    let n = spec_type_name(AddressType::Null);
    let u = spec_type_name(AddressType::User);
    assert(b != c) by {
        assert(b.len() != c.len());
    }
    assert(b != n) by {
        assert(b.len() != n.len());
    }
    assert(b != u) by {
        assert(b.len() != u.len());
    }
    assert(c != n) by {
        assert(c.len() != n.len());
    }
    assert(c != u) by {
        assert(c.len() != u.len());
    }
    assert(n != u) by {
        assert(n[0] != u[0]);
    }
}

/// `n` zero bits denote zero.
pub proof fn lemma_bits_value_zeros(n: nat)
    ensures
        bits_value(zeros(n)) == 0,
    decreases n,
{
    if n > 0 {
        lemma_bits_value_zeros((n - 1) as nat);
        assert(zeros(n).drop_last() =~= zeros((n - 1) as nat));
        assert((0u64 << 1u64) | 0u64 == 0) by (bit_vector);
    }
}

/// Regrouping bytes into padded 5-bit digits and back gives the bytes.
pub proof fn lemma_convert_roundtrip(bytes: Seq<u8>)
    ensures
        ({
            let digits = groups_of(padded_bits(to_bits(bytes, 8), 5), 5);
            &&& spec_convert_bits(digits, 5, 8, false) == Ok::<
                Seq<u8>,
                crate::types::SpecDecodingError,
            >(bytes)
            &&& forall|i: int| 0 <= i < digits.len() ==> digits[i] < 32
            &&& digits.len() * 5 >= bytes.len() * 8
        }),
{
    let t8 = to_bits(bytes, 8);
    lemma_to_bits_len(bytes, 8);
    let n = bytes.len();
    assert(t8.len() == n * 8);
    let padded = padded_bits(t8, 5);
    let k: nat = if t8.len() % 5 == 0 {
        0
    } else {
        (5 - t8.len() % 5) as nat
    };
    assert(padded =~= t8 + zeros(k)) by {
        if t8.len() % 5 == 0 {
            assert(zeros(0) =~= Seq::<bool>::empty());
        }
    }
    assert(k < 5);
    assert(padded.len() % 5 == 0) by {
        let l = t8.len() as int;
        assert(l % 5 == 0 ==> (l + 0) % 5 == 0);
        assert(l % 5 != 0 ==> (l + (5 - l % 5)) % 5 == 0) by (nonlinear_arith);
    }
    lemma_to_bits_groups_of(padded, 5);
    let digits = groups_of(padded, 5);
    assert(to_bits(digits, 5) =~= padded);
    let len = padded.len() as int;
    assert(len == n * 8 + k);
    assert(len % 8 == k) by {
        let nn = n as int;
        let kk = k as int;
        assert(0 <= kk < 8 ==> (nn * 8 + kk) % 8 == kk) by (nonlinear_arith);
    }
    let tail = padded.subrange(len - k, len);
    assert(tail =~= zeros(k));
    lemma_bits_value_zeros(k);
    assert(padded.subrange(0, len - k) =~= t8);
    assert(all_fit(bytes, 8)) by {
        assert forall|i: int| 0 <= i < bytes.len() implies ((#[trigger] bytes[i]) as u64) >> 8u64
            == 0 by {
            let x = bytes[i];
            assert((x as u64) >> 8u64 == 0) by (bit_vector);
        }
    }
    lemma_groups_of_to_bits(bytes, 8);
    assert forall|i: int| 0 <= i < digits.len() implies digits[i] < 32 by {
        let x = digits[i];
        assert((x as u64) >> 5u64 == 0 ==> x < 32) by (bit_vector);
    }
}

/// No character of a plain string is upper case, so it is not of mixed case,
/// and its lower case is itself.
pub proof fn lemma_plain_case(s: Seq<char>)
    requires
        all_plain(s),
    ensures
        !mixed_case(s),
        all_ascii(s),
        str_to_lowercase(s) == s,
{
    assert forall|i: int| 0 <= i < s.len() implies !char_is_uppercase(#[trigger] s[i]) by {
        assert(lower_alnum(s[i]) || s[i] == ':' || s[i] == '.');
    }
    assert(all_ascii(s)) by {
        assert forall|i: int| 0 <= i < s.len() implies (#[trigger] s[i] as u32) < 128 by {
            assert(lower_alnum(s[i]) || s[i] == ':' || s[i] == '.');
        }
    }
    assert(s.map_values(|c: char| ascii_lower(c)) =~= s) by {
        assert forall|i: int| 0 <= i < s.len() implies ascii_lower(s[i]) == s[i] by {
            assert(lower_alnum(s[i]) || s[i] == ':' || s[i] == '.');
        }
    }
}

/// No character of the upper case of a plain string is lower case, and its
/// lower case is the plain string.
pub proof fn lemma_upper_plain_case(s: Seq<char>)
    requires
        all_plain(s),
    ensures
        ({
            let u = s.map_values(|c: char| ascii_upper(c));
            &&& !mixed_case(u)
            &&& str_to_lowercase(u) == s
        }),
{
    let u = s.map_values(|c: char| ascii_upper(c));
    assert forall|i: int| 0 <= i < u.len() implies !char_is_lowercase(#[trigger] u[i]) by {
        assert(lower_alnum(s[i]) || s[i] == ':' || s[i] == '.');
        assert(u[i] == ascii_upper(s[i]));
    }
    assert(all_ascii(u)) by {
        assert forall|i: int| 0 <= i < u.len() implies (#[trigger] u[i] as u32) < 128 by {
            assert(lower_alnum(s[i]) || s[i] == ':' || s[i] == '.');
            assert(u[i] == ascii_upper(s[i]));
        }
    }
    assert(u.map_values(|c: char| ascii_lower(c)) =~= s) by {
        assert forall|i: int| 0 <= i < s.len() implies ascii_lower(u[i]) == s[i] by {
            assert(lower_alnum(s[i]) || s[i] == ':' || s[i] == '.');
            assert(u[i] == ascii_upper(s[i]));
        }
    }
}

/// The decoding of a lower case address `prefix:body` whose parts are
/// already known to read back: the common tail of the law below.
proof fn lemma_decode_payload(
    orig: Seq<char>,
    lower: Seq<char>,
    raw: Seq<u8>,
    network: Network,
    address_type: Option<AddressType>,
)
    requires
        spec_encode(raw, network, EncodingOptions::Simple) is Ok,
        ({
            let version = spec_version_byte(raw.len())->Some_0;
            let prefix = spec_to_prefix(network)->Ok_0;
            let digits = spec_payload_digits(version, raw);
            let body = spec_digit_chars(digits) + spec_digit_chars(
                checksum_digits(spec_checksum(prefix, digits)),
            );
            let parts = spec_split(lower, ':');
            &&& parts.len() >= 2
            &&& parts[0] == prefix
            &&& parts.last() == body
            &&& spec_options(parts.subrange(1, parts.len() - 1)) == Ok::<
                Option<AddressType>,
                crate::types::SpecDecodingError,
            >(address_type)
            &&& (address_type matches Some(t) ==> spec_address_type(raw) == Ok::<
                AddressType,
                crate::types::EncodingError,
            >(t))
        }),
    ensures
        spec_decode_lower(orig, lower) == DecodeOutcome::Decoded(
            SpecDecodedAddress {
                input_base32_address: orig,
                parsed_address_bytes: raw,
                hex_address: if raw.len() == 20 {
                    Some(raw)
                } else {
                    None
                },
                network,
            },
        ),
{
    let version = spec_version_byte(raw.len())->Some_0;
    let prefix = spec_to_prefix(network)->Ok_0;
    let digits = spec_payload_digits(version, raw);
    let c = spec_checksum(prefix, digits);
    let cds = checksum_digits(c);
    let body = spec_digit_chars(digits) + spec_digit_chars(cds);
    let payload8 = seq![version] + raw;
    lemma_convert_roundtrip(payload8);
    lemma_prefix_roundtrip(network);
    assert forall|i: int| 0 <= i < cds.len() implies cds[i] < 32 by {
        let k = (5 * (7 - i)) as u64;
        assert((((c >> k) & 31u64) as u8) < 32) by (bit_vector);
    }
    lemma_digit_chars_plain(digits);
    lemma_digit_chars_plain(cds);
    let all = digits + cds;
    assert(spec_digit_chars(all) =~= body);
    assert forall|i: int| 0 <= i < all.len() implies all[i] < 32 by {
        if i < digits.len() {
            assert(all[i] == digits[i]);
        } else {
            assert(all[i] == cds[i - digits.len()]);
        }
    }
    lemma_payload_values_digit_chars(all);
    lemma_digit_chars_plain(all);
    let expanded = spec_expand_prefix(prefix);
    lemma_checksum_verifies(expanded + digits);
    assert(expanded + digits + zero_digits(8) =~= expanded + (digits + zero_digits(8)));
    assert(expanded + digits + cds =~= expanded + all);
    assert(spec_polymod(expanded + all) == 0);
    // the payload is plain, hence of no mixed case
    assert(all_plain(body)) by {
        assert forall|i: int| 0 <= i < body.len() implies lower_alnum(#[trigger] body[i])
            || body[i] == ':' || body[i] == '.' by {
            assert(lower_alnum(spec_digit_chars(all)[i]));
        }
    }
    lemma_plain_case(body);
    assert(body.len() > 0);
    assert(all.len() >= 8);
    assert(all.take(all.len() - 8) =~= digits);
    assert(version <= 7);
    assert(version & 0x07u8 == version && version & 0xf8u8 == 0) by (bit_vector)
        requires
            version <= 7,
    ;
    assert(payload8[0] == version);
    assert(payload8.skip(1) =~= raw);
    assert(spec_size_len(version) == raw.len());
    if raw.len() == 20 {
        assert(version == 0);
    } else {
        assert(version != 0);
    }
}

/// Decoding the lower case writing of an address gives it back.
proof fn lemma_decode_encode_simple(raw: Seq<u8>, network: Network)
    requires
        spec_encode(raw, network, EncodingOptions::Simple) is Ok,
    ensures
        ({
            let s = spec_encode(raw, network, EncodingOptions::Simple)->Ok_0;
            spec_decode(s) == DecodeOutcome::Decoded(
                SpecDecodedAddress {
                    input_base32_address: s,
                    parsed_address_bytes: raw,
                    hex_address: if raw.len() == 20 {
                        Some(raw)
                    } else {
                        None
                    },
                    network,
                },
            )
        }),
{
    let s = spec_encode(raw, network, EncodingOptions::Simple)->Ok_0;
    let version = spec_version_byte(raw.len())->Some_0;
    let prefix = spec_to_prefix(network)->Ok_0;
    let digits = spec_payload_digits(version, raw);
    let c = spec_checksum(prefix, digits);
    let cds = checksum_digits(c);
    let body = spec_digit_chars(digits) + spec_digit_chars(cds);
    lemma_prefix_roundtrip(network);
    lemma_convert_roundtrip(seq![version] + raw);
    assert forall|i: int| 0 <= i < cds.len() implies cds[i] < 32 by {
        let k = (5 * (7 - i)) as u64;
        assert((((c >> k) & 31u64) as u8) < 32) by (bit_vector);
    }
    lemma_digit_chars_plain(digits);
    lemma_digit_chars_plain(cds);
    assert(all_lower_alnum(body)) by {
        assert forall|i: int| 0 <= i < body.len() implies lower_alnum(#[trigger] body[i]) by {
            if i < spec_digit_chars(digits).len() {
                assert(body[i] == spec_digit_chars(digits)[i]);
            } else {
                assert(body[i] == spec_digit_chars(cds)[i - spec_digit_chars(digits).len()]);
            }
        }
    }
    lemma_split_none(prefix, ':');
    lemma_split_none(body, ':');
        let lower = prefix + seq![':'] + body;
        assert(s == lower);
        assert(all_plain(lower)) by {
            assert forall|i: int| 0 <= i < lower.len() implies lower_alnum(#[trigger] lower[i])
                || lower[i] == ':' || lower[i] == '.' by {
                if i < prefix.len() {
                    assert(lower[i] == prefix[i]);
                } else if i > prefix.len() {
                    assert(lower[i] == body[i - prefix.len() - 1]);
                }
            }
        }
        lemma_plain_case(lower);
        lemma_split_concat(prefix, body, ':');
        let parts = spec_split(lower, ':');
        assert(parts =~= seq![prefix, body]);
        assert(parts.subrange(1, parts.len() - 1) =~= Seq::<Seq<char>>::empty());
        lemma_decode_payload(s, lower, raw, network, None);
}

/// Decoding the QR code writing of an address gives it back.
proof fn lemma_decode_encode_qr(raw: Seq<u8>, network: Network)
    requires
        spec_encode(raw, network, EncodingOptions::QrCode) is Ok,
    ensures
        ({
            let s = spec_encode(raw, network, EncodingOptions::QrCode)->Ok_0;
            spec_decode(s) == DecodeOutcome::Decoded(
                SpecDecodedAddress {
                    input_base32_address: s,
                    parsed_address_bytes: raw,
                    hex_address: if raw.len() == 20 {
                        Some(raw)
                    } else {
                        None
                    },
                    network,
                },
            )
        }),
{
    let s = spec_encode(raw, network, EncodingOptions::QrCode)->Ok_0;
    let version = spec_version_byte(raw.len())->Some_0;
    let prefix = spec_to_prefix(network)->Ok_0;
    let digits = spec_payload_digits(version, raw);
    let c = spec_checksum(prefix, digits);
    let cds = checksum_digits(c);
    let body = spec_digit_chars(digits) + spec_digit_chars(cds);
    lemma_prefix_roundtrip(network);
    lemma_convert_roundtrip(seq![version] + raw);
    assert forall|i: int| 0 <= i < cds.len() implies cds[i] < 32 by {
        let k = (5 * (7 - i)) as u64;
        assert((((c >> k) & 31u64) as u8) < 32) by (bit_vector);
    }
    lemma_digit_chars_plain(digits);
    lemma_digit_chars_plain(cds);
    assert(all_lower_alnum(body)) by {
        assert forall|i: int| 0 <= i < body.len() implies lower_alnum(#[trigger] body[i]) by {
            if i < spec_digit_chars(digits).len() {
                assert(body[i] == spec_digit_chars(digits)[i]);
            } else {
                assert(body[i] == spec_digit_chars(cds)[i - spec_digit_chars(digits).len()]);
            }
        }
    }
    lemma_split_none(prefix, ':');
    lemma_split_none(body, ':');
        let t = spec_address_type(raw)->Ok_0;
        let name = spec_type_name(t);
        lemma_type_name_roundtrip(t);
        let opt = type_key() + seq!['.'] + name;
        let lower = prefix + type_option_tag() + name + seq![':'] + body;
        assert(lower =~= prefix + seq![':'] + (opt + seq![':'] + body));
        assert(s == lower.map_values(|c: char| ascii_upper(c)));
        assert(all_plain(lower)) by {
            assert forall|i: int| 0 <= i < lower.len() implies lower_alnum(#[trigger] lower[i])
                || lower[i] == ':' || lower[i] == '.' by {
                let a = prefix.len() as int;
                let b = a + 6;
                let d = b + name.len();
                if i < a {
                    assert(lower[i] == prefix[i]);
                } else if i < b {
                    assert(lower[i] == type_option_tag()[i - a]);
                } else if i < d {
                    assert(lower[i] == name[i - b]);
                } else if i > d {
                    assert(lower[i] == body[i - d - 1]);
                }
            }
        }
        lemma_upper_plain_case(lower);
        assert forall|i: int| 0 <= i < opt.len() implies opt[i] != ':' by {
            if i > 4 {
                assert(opt[i] == name[i - 5]);
                assert(lower_alnum(name[i - 5]));
            }
        }
        lemma_split_none(opt, ':');
        lemma_split_concat(opt, body, ':');
        lemma_split_concat(prefix, opt + seq![':'] + body, ':');
        let parts = spec_split(lower, ':');
        assert(parts =~= seq![prefix, opt, body]);
        let opts = parts.subrange(1, parts.len() - 1);
        assert(opts =~= seq![opt]);
        lemma_split_none(type_key(), '.');
        lemma_split_none(name, '.');
        lemma_split_concat(type_key(), name, '.');
        assert(spec_split(opt, '.') =~= seq![type_key(), name]);
        assert(opts.drop_last() =~= Seq::<Seq<char>>::empty());
        assert(opts.last() == opt);
        assert(spec_options(opts.drop_last()) == Ok::<
            Option<AddressType>,
            crate::types::SpecDecodingError,
        >(None));
        assert(spec_option_step(opt, None) == Ok::<
            Option<AddressType>,
            crate::types::SpecDecodingError,
        >(Some(t)));
        assert(spec_options(opts) == Ok::<
            Option<AddressType>,
            crate::types::SpecDecodingError,
        >(Some(t)));
        lemma_decode_payload(s, lower, raw, network, Some(t));
}

/// The central law of the address format: decoding the encoding of a raw
/// address gives back the raw address and its network, and, for a 160-bit
/// hash, the 20-byte address; the decoded address carries the encoded
/// string. This holds for both writings, lower case and QR code.
pub proof fn lemma_decode_encode(raw: Seq<u8>, network: Network, options: EncodingOptions)
    requires
        spec_encode(raw, network, options) is Ok,
    ensures
        ({
            let s = spec_encode(raw, network, options)->Ok_0;
            spec_decode(s) == DecodeOutcome::Decoded(
                SpecDecodedAddress {
                    input_base32_address: s,
                    parsed_address_bytes: raw,
                    hex_address: if raw.len() == 20 {
                        Some(raw)
                    } else {
                        None
                    },
                    network,
                },
            )
        }),
{
    match options {
        EncodingOptions::Simple => lemma_decode_encode_simple(raw, network),
        EncodingOptions::QrCode => lemma_decode_encode_qr(raw, network),
    }
}

/// An option of a key other than `type` is ignored: decoding a lower case
/// address with such a `key.value` part before the payload comes to what
/// decoding it without that part does.
pub proof fn lemma_unknown_option_ignored(
    orig: Seq<char>,
    prefix: Seq<char>,
    key: Seq<char>,
    value: Seq<char>,
    payload: Seq<char>,
)
    requires
        forall|i: int| 0 <= i < prefix.len() ==> prefix[i] != ':',
        forall|i: int| 0 <= i < payload.len() ==> payload[i] != ':',
        forall|i: int| 0 <= i < key.len() ==> key[i] != ':' && key[i] != '.',
        forall|i: int| 0 <= i < value.len() ==> value[i] != ':' && value[i] != '.',
        key != type_key(),
    ensures
        spec_decode_lower(orig, prefix + seq![':'] + key + seq!['.'] + value + seq![':'] + payload)
            == spec_decode_lower(orig, prefix + seq![':'] + payload),
{
    let opt = key + seq!['.'] + value;
    let with = prefix + seq![':'] + key + seq!['.'] + value + seq![':'] + payload;
    assert(with =~= prefix + seq![':'] + (opt + seq![':'] + payload));
    assert forall|i: int| 0 <= i < opt.len() implies opt[i] != ':' by {
        if i < key.len() {
            assert(opt[i] == key[i]);
        } else if i > key.len() {
            assert(opt[i] == value[i - key.len() - 1]);
        }
    }
    lemma_split_none(prefix, ':');
    lemma_split_none(payload, ':');
    lemma_split_none(opt, ':');
    lemma_split_concat(opt, payload, ':');
    lemma_split_concat(prefix, opt + seq![':'] + payload, ':');
    lemma_split_concat(prefix, payload, ':');
    let p1 = spec_split(prefix + seq![':'] + payload, ':');
    let p2 = spec_split(with, ':');
    assert(p1 =~= seq![prefix, payload]);
    assert(p2 =~= seq![prefix, opt, payload]);
    lemma_split_none(key, '.');
    lemma_split_none(value, '.');
    lemma_split_concat(key, value, '.');
    assert(spec_split(opt, '.') =~= seq![key, value]);
    let o1 = p1.subrange(1, p1.len() - 1);
    let o2 = p2.subrange(1, p2.len() - 1);
    assert(o1 =~= Seq::<Seq<char>>::empty());
    assert(o2 =~= seq![opt]);
    assert(o2.drop_last() =~= Seq::<Seq<char>>::empty());
    assert(spec_options(o2) == spec_options(o1));
}

/// The digit values of payload characters are digits, and their alphabet
/// characters are those characters.
proof fn lemma_payload_values_back(b: Seq<char>)
    requires
        spec_payload_values(b) is Ok,
    ensures
        spec_digit_chars(spec_payload_values(b)->Ok_0) == b,
        forall|i: int|
            0 <= i < spec_payload_values(b)->Ok_0.len() ==> spec_payload_values(b)->Ok_0[i] < 32,
    decreases b.len(),
{
    if b.len() > 0 {
        let p = b.drop_last();
        lemma_payload_values_back(p);
        let r = spec_payload_values(p)->Ok_0;
        let c = b.last();
        let d = spec_char_index(c)->Some_0;
        let i = choose|i: int| 0 <= i < 32 && spec_charset()[i] == c;
        assert(d == i as u8);
        assert(spec_charset()[d as int] == c);
        assert(spec_digit_chars(r.push(d)) =~= spec_digit_chars(r).push(c));
        assert(b =~= p.push(c));
    } else {
        assert(spec_digit_chars(Seq::<u8>::empty()) =~= b);
    }
}

/// Regrouping 5-bit digits into bytes without padding and back with padding
/// gives the digits.
proof fn lemma_convert_back(data: Seq<u8>)
    requires
        forall|i: int| 0 <= i < data.len() ==> data[i] < 32,
        spec_convert_bits(data, 5, 8, false) is Ok,
    ensures
        groups_of(padded_bits(to_bits(spec_convert_bits(data, 5, 8, false)->Ok_0, 8), 5), 5)
            == data,
{
    let t = to_bits(data, 5);
    lemma_to_bits_len(data, 5);
    let l = t.len() as int;
    let r = l % 8;
    let head = t.subrange(0, l - r);
    let tail = t.subrange(l - r, l);
    assert(r < 5);
    lemma_bits_of_value(tail);
    lemma_bits_of_zero(r as nat);
    assert(tail =~= zeros(r as nat));
    assert(head.len() % 8 == 0) by {
        assert((l - l % 8) % 8 == 0) by (nonlinear_arith)
            requires
                l >= 0,
        ;
    }
    lemma_to_bits_groups_of(head, 8);
    let bytes = groups_of(head, 8);
    assert(to_bits(bytes, 8) =~= head);
    assert(l % 5 == 0) by {
        let n = data.len() as int;
        assert((n * 5) % 5 == 0) by (nonlinear_arith);
    }
    assert(padded_bits(head, 5) =~= t) by {
        assert(t =~= head + tail);
        if r == 0 {
            assert(head.len() % 5 == 0);
            assert(tail =~= Seq::<bool>::empty());
        } else {
            assert((l - r) % 5 == 5 - r) by (nonlinear_arith)
                requires
                    l % 5 == 0,
                    0 < r < 5,
                    r <= l,
            ;
        }
    }
    assert(all_fit(data, 5)) by {
        assert forall|i: int| 0 <= i < data.len() implies ((#[trigger] data[i]) as u64) >> 5u64
            == 0 by {
            let x = data[i];
            assert(x < 32 ==> (x as u64) >> 5u64 == 0) by (bit_vector);
        }
    }
    lemma_groups_of_to_bits(data, 5);
}

/// Encoding an address decoded from its lower case writing on the main or
/// the test network, without options, gives that writing back.
pub proof fn lemma_encode_decoded(
    orig: Seq<char>,
    prefix: Seq<char>,
    payload: Seq<char>,
    d: SpecDecodedAddress,
)
    requires
        prefix == mainnet_prefix() || prefix == testnet_prefix(),
        forall|i: int| 0 <= i < payload.len() ==> payload[i] != ':',
        spec_decode_lower(orig, prefix + seq![':'] + payload) == DecodeOutcome::Decoded(d),
    ensures
        spec_encode(d.parsed_address_bytes, d.network, EncodingOptions::Simple) == Ok::<
            Seq<char>,
            crate::types::EncodingError,
        >(prefix + seq![':'] + payload),
{
    let lower = prefix + seq![':'] + payload;
    assert forall|i: int| 0 <= i < prefix.len() implies prefix[i] != ':' by {}
    lemma_split_none(prefix, ':');
    lemma_split_none(payload, ':');
    lemma_split_concat(prefix, payload, ':');
    let parts = spec_split(lower, ':');
    assert(parts =~= seq![prefix, payload]);
    assert(parts.subrange(1, parts.len() - 1) =~= Seq::<Seq<char>>::empty());
    let network = spec_from_prefix(prefix)->Ok_0;
    let p5 = spec_payload_values(payload)->Ok_0;
    lemma_payload_values_back(payload);
    let n = p5.len();
    let data = p5.take(n - 8);
    let c8 = p5.skip(n - 8);
    let bytes = spec_convert_bits(data, 5, 8, false)->Ok_0;
    let version = bytes[0];
    let raw = bytes.skip(1);
    assert(d.parsed_address_bytes == raw);
    assert(d.network == network);
    assert(version & 0xf8u8 == 0);
    assert(raw.len() == spec_size_len(version & 0x07u8));
    assert(version & 0xf8u8 == 0 ==> version & 0x07u8 == version && version < 8) by (bit_vector);
    assert(spec_version_byte(raw.len()) == Some(version));
    assert(spec_to_prefix(network) == Ok::<Seq<char>, crate::types::EncodingError>(prefix));
    lemma_convert_back(data);
    assert(seq![version] + raw =~= bytes);
    let digits = spec_payload_digits(version, raw);
    assert(digits == data);
    assert(p5 =~= data + c8);
    assert(spec_expand_prefix(prefix) + p5 =~= (spec_expand_prefix(prefix) + data) + c8);
    lemma_checksum_unique(spec_expand_prefix(prefix) + data, c8);
    assert(spec_expand_prefix(prefix) + data + zero_digits(8) =~= (spec_expand_prefix(prefix)
        + data) + zero_digits(8));
    assert(c8 == checksum_digits(spec_checksum(prefix, digits)));
    assert(spec_digit_chars(data) + spec_digit_chars(c8) =~= spec_digit_chars(p5));
}

/// A decoding outcome with the decoded address carrying the string `s`.
pub open spec fn with_input(o: DecodeOutcome, s: Seq<char>) -> DecodeOutcome {
    match o {
        DecodeOutcome::Decoded(d) => DecodeOutcome::Decoded(
            SpecDecodedAddress { input_base32_address: s, ..d },
        ),
        _ => o,
    }
}

/// Decoding depends on the given string only through the lower case text,
/// but for the string that the decoded address carries.
proof fn lemma_decode_lower_input(o1: Seq<char>, o2: Seq<char>, lower: Seq<char>)
    ensures
        spec_decode_lower(o2, lower) == with_input(spec_decode_lower(o1, lower), o2),
{
    let parts = spec_split(lower, ':');
    if parts.len() >= 2 {
        let prefix = parts[0];
        if spec_from_prefix(prefix) is Ok {
            let network = spec_from_prefix(prefix)->Ok_0;
            if spec_options(parts.subrange(1, parts.len() - 1)) is Ok {
                let t = spec_options(parts.subrange(1, parts.len() - 1))->Ok_0;
                let payload = parts.last();
                if payload.len() > 0 && !mixed_case(payload) && spec_payload_values(payload) is Ok {
                    let p5 = spec_payload_values(payload)->Ok_0;
                    if p5.len() >= 8 && spec_convert_bits(p5.take(p5.len() - 8), 5, 8, false) is Ok {
                        let bytes = spec_convert_bits(p5.take(p5.len() - 8), 5, 8, false)->Ok_0;
                        if bytes.len() > 0 {
                            let v1 = spec_decode_version(o1, network, t, bytes);
                            let v2 = spec_decode_version(o2, network, t, bytes);
                            assert(v2 == with_input(v1, o2));
                        }
                    }
                }
            }
        }
    }
}

/// The ASCII lower case of a string.
pub open spec fn lower_text(s: Seq<char>) -> Seq<char> {
    s.map_values(|c: char| ascii_lower(c))
}

proof fn lemma_lower_free(s: Seq<char>, c: char)
    requires
        forall|i: int| 0 <= i < s.len() ==> s[i] != c,
        !('A' <= c && c <= 'Z'),
        !('a' <= c && c <= 'z'),
    ensures
        forall|i: int| 0 <= i < lower_text(s).len() ==> lower_text(s)[i] != c,
{
    assert forall|i: int| 0 <= i < lower_text(s).len() implies lower_text(s)[i] != c by {
        let x = s[i];
        if 'A' <= x && x <= 'Z' {
            assert(('a' <= ascii_lower(x) && ascii_lower(x) <= 'z')) by {
                assert((x as u32) + 32 >= 'a' as u32);
            }
        }
    }
}

/// An option of a key other than `type` is ignored by the decoding of an
/// ASCII address: with such a `key.value` part before the payload, decoding
/// comes to what it does without that part, the decoded address carrying
/// the string given.
pub proof fn lemma_unknown_option_ignored_in_decode(
    prefix: Seq<char>,
    key: Seq<char>,
    value: Seq<char>,
    payload: Seq<char>,
)
    requires
        forall|i: int| 0 <= i < prefix.len() ==> prefix[i] != ':',
        forall|i: int| 0 <= i < payload.len() ==> payload[i] != ':',
        forall|i: int| 0 <= i < key.len() ==> key[i] != ':' && key[i] != '.',
        forall|i: int| 0 <= i < value.len() ==> value[i] != ':' && value[i] != '.',
        lower_text(key) != type_key(),
        all_ascii(prefix + seq![':'] + key + seq!['.'] + value + seq![':'] + payload),
        !mixed_case(prefix + seq![':'] + key + seq!['.'] + value + seq![':'] + payload),
    ensures
        spec_decode(prefix + seq![':'] + key + seq!['.'] + value + seq![':'] + payload)
            == with_input(
            spec_decode(prefix + seq![':'] + payload),
            prefix + seq![':'] + key + seq!['.'] + value + seq![':'] + payload,
        ),
{
    let s2 = prefix + seq![':'] + key + seq!['.'] + value + seq![':'] + payload;
    let s1 = prefix + seq![':'] + payload;
    let a = prefix.len() as int;
    let kb = a + 1;
    let vb = kb + key.len() + 1;
    let pb = vb + value.len() + 1;
    // Where each character of `s1` stands in `s2`.
    assert forall|i: int| 0 <= i < s1.len() implies s1[i] == s2[if i <= a {
        i
    } else {
        i - a - 1 + pb
    }] by {
        if i < a {
            assert(s1[i] == prefix[i] && s2[i] == prefix[i]);
        } else if i > a {
            assert(s1[i] == payload[i - a - 1]);
            assert(s2[i - a - 1 + pb] == payload[i - a - 1]);
        }
    }
    assert(all_ascii(s1)) by {
        assert forall|i: int| 0 <= i < s1.len() implies (#[trigger] s1[i] as u32) < 128 by {
            let j = if i <= a { i } else { i - a - 1 + pb };
            assert(s1[i] == s2[j]);
            assert((s2[j] as u32) < 128);
        }
    }
    assert(!mixed_case(s1)) by {
        if mixed_case(s1) {
            let i = choose|i: int| 0 <= i < s1.len() && char_is_lowercase(#[trigger] s1[i]);
            let j = choose|j: int| 0 <= j < s1.len() && char_is_uppercase(#[trigger] s1[j]);
            let i2 = if i <= a { i } else { i - a - 1 + pb };
            let j2 = if j <= a { j } else { j - a - 1 + pb };
            assert(s1[i] == s2[i2]);
            assert(s1[j] == s2[j2]);
            assert(char_is_lowercase(s2[i2]));
            assert(char_is_uppercase(s2[j2]));
        }
    }
    let lp = lower_text(prefix);
    let lk = lower_text(key);
    let lv = lower_text(value);
    let lb = lower_text(payload);
    assert(str_to_lowercase(s2) =~= lp + seq![':'] + lk + seq!['.'] + lv + seq![':'] + lb);
    assert(str_to_lowercase(s1) =~= lp + seq![':'] + lb);
    lemma_lower_free(prefix, ':');
    lemma_lower_free(payload, ':');
    lemma_lower_free(key, ':');
    lemma_lower_free(key, '.');
    lemma_lower_free(value, ':');
    lemma_lower_free(value, '.');
    lemma_unknown_option_ignored(s2, lp, lk, lv, lb);
    lemma_decode_lower_input(s1, s2, lp + seq![':'] + lb);
}

} // verus!
