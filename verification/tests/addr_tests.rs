use conflux_utils::addr::{cfx_addr_decode, cfx_addr_decode_checked, cfx_addr_encode};
use conflux_utils::types::{
    Address, AddressType, DecodingError, EncodingError, EncodingOptions, Network, OptionError,
};
use conflux_utils::utils::{convert_bits, expand_prefix, polymod};

fn hex(s: &str) -> Vec<u8> {
    (0..s.len() / 2)
        .map(|i| u8::from_str_radix(&s[2 * i..2 * i + 2], 16).unwrap())
        .collect()
}

#[test]
fn encode_user_address_main_network() {
    let raw = hex("106d49f8505410eb4e671d51f7d96d2c87807b09");
    assert_eq!(
        cfx_addr_encode(&raw, Network::Main, EncodingOptions::Simple).unwrap(),
        "cfx:aajg4wt2mbmbb44sp6szd783ry0jtad5bea80xdy7p"
    );
    assert_eq!(
        cfx_addr_encode(&raw, Network::Main, EncodingOptions::QrCode).unwrap(),
        "CFX:TYPE.USER:AAJG4WT2MBMBB44SP6SZD783RY0JTAD5BEA80XDY7P"
    );
}

#[test]
fn encode_decode_user_address_test_network() {
    let raw = hex("106d49f8505410eb4e671d51f7d96d2c87807b09");
    let s = cfx_addr_encode(&raw, Network::Test, EncodingOptions::Simple).unwrap();
    assert!(s.starts_with("cfxtest:aajg4wt2mbmbb44sp6szd783ry0jtad5be"));
    let d = cfx_addr_decode(&s).unwrap();
    assert_eq!(d.network, Network::Test);
    assert_eq!(d.parsed_address_bytes, raw);
}

#[test]
fn decode_known_addresses() {
    let d = cfx_addr_decode("cfx:acc7uawf5ubtnmezvhu9dhc6sghea0403y2dgpyfjp").unwrap();
    assert_eq!(d.network, Network::Main);
    assert_eq!(d.parsed_address_bytes, hex("85d80245dc02f5a89589e1f19c5c718e405b56cd"));
    let mut a = [0u8; 20];
    a.copy_from_slice(&hex("85d80245dc02f5a89589e1f19c5c718e405b56cd"));
    assert_eq!(d.hex_address, Some(Address(a)));
    assert_eq!(d.input_base32_address, "cfx:acc7uawf5ubtnmezvhu9dhc6sghea0403y2dgpyfjp");

    let d = cfx_addr_decode("CFX:TYPE.USER:AAJG4WT2MBMBB44SP6SZD783RY0JTAD5BEA80XDY7P").unwrap();
    assert_eq!(d.network, Network::Main);
    assert_eq!(d.parsed_address_bytes, hex("106d49f8505410eb4e671d51f7d96d2c87807b09"));

    let d = cfx_addr_decode("cfxtest:acc7uawf5ubtnmezvhu9dhc6sghea0403ywjz6wtpg").unwrap();
    assert_eq!(d.network, Network::Test);
}

#[test]
fn decode_errors() {
    assert_eq!(
        cfx_addr_decode("cfx:acc7uawf5ubtnmezvhu9dhc6sghea0403y2dgpyfjP"),
        Err(DecodingError::MixedCase)
    );
    assert_eq!(cfx_addr_decode("acc7uawf5ubtnmezvhu9dhc6sghea0403y2dgpyfjp"), Err(DecodingError::NoPrefix));
    assert_eq!(
        cfx_addr_decode("bch:acc7uawf5ubtnmezvhu9dhc6sghea0403y2dgpyfjp"),
        Err(DecodingError::InvalidPrefix("bch".to_string()))
    );
    assert_eq!(
        cfx_addr_decode("net1:acc7uawf5ubtnmezvhu9dhc6sghea0403y2dgpyfjp"),
        Err(DecodingError::InvalidPrefix("net1".to_string()))
    );
    assert_eq!(cfx_addr_decode("cfx:"), Err(DecodingError::InvalidLength(0)));
    assert_eq!(
        cfx_addr_decode("cfx:acc7uawf5ubtnmezvhu9dhc6sghea0403y2dgpyfji"),
        Err(DecodingError::InvalidChar('i'))
    );
    assert!(matches!(
        cfx_addr_decode("cfx:acc7uawf5ubtnmezvhu9dhc6sghea0403y2dgpyfjq"),
        Err(DecodingError::InvalidChar('q'))
    ));
    assert!(matches!(
        cfx_addr_decode("cfx:acc7uawf5ubtnmezvhu9dhc6sghea0403y2dgpyfja"),
        Err(DecodingError::ChecksumFailed(_))
    ));
    assert_eq!(
        cfx_addr_decode("cfx:type:acc7uawf5ubtnmezvhu9dhc6sghea0403y2dgpyfjp"),
        Err(DecodingError::InvalidOption(OptionError::ParseError("type".to_string())))
    );
    assert_eq!(
        cfx_addr_decode("cfx:type.alien:acc7uawf5ubtnmezvhu9dhc6sghea0403y2dgpyfjp"),
        Err(DecodingError::InvalidOption(OptionError::InvalidAddressType("alien".to_string())))
    );
    assert_eq!(
        cfx_addr_decode("cfx:type.user:acc7uawf5ubtnmezvhu9dhc6sghea0403y2dgpyfjp"),
        Err(DecodingError::InvalidOption(OptionError::AddressTypeMismatch {
            expected: AddressType::User,
            got: Ok(AddressType::Contract),
        }))
    );
}

#[test]
fn decode_ignores_unknown_options() {
    let d = cfx_addr_decode("cfx:color.red:type.contract:acc7uawf5ubtnmezvhu9dhc6sghea0403y2dgpyfjp").unwrap();
    assert_eq!(d.network, Network::Main);
}

#[test]
fn decode_checked_reports_success() {
    assert!(cfx_addr_decode_checked("cfx:acc7uawf5ubtnmezvhu9dhc6sghea0403y2dgpyfjp").unwrap().is_ok());
}

#[test]
fn encode_network_id_roundtrip() {
    let raw = hex("85d80245dc02f5a89589e1f19c5c718e405b56cd");
    let s = cfx_addr_encode(&raw, Network::Id(17), EncodingOptions::Simple).unwrap();
    assert!(s.starts_with("net17:acc7uawf5ubtnmezvhu9dhc6sghea0403y"));
    let d = cfx_addr_decode(&s).unwrap();
    assert_eq!(d.network, Network::Id(17));
    let q = cfx_addr_encode(&raw, Network::Id(17), EncodingOptions::QrCode).unwrap();
    assert!(q.starts_with("NET17:TYPE.CONTRACT:ACC7UAWF5UBTNMEZVHU9DHC6SGHEA0403Y"));
    assert_eq!(cfx_addr_decode(&q).unwrap().parsed_address_bytes, raw);
}

#[test]
fn encode_longer_hash_has_no_hex_address() {
    let raw = vec![7u8; 32];
    let s = cfx_addr_encode(&raw, Network::Main, EncodingOptions::Simple).unwrap();
    let d = cfx_addr_decode(&s).unwrap();
    assert_eq!(d.parsed_address_bytes, raw);
    assert_eq!(d.hex_address, None);
}

#[test]
fn encode_qr_rejects_unknown_type_bits() {
    let raw = hex("f06d49f8505410eb4e671d51f7d96d2c87807b09");
    assert_eq!(
        cfx_addr_encode(&raw, Network::Main, EncodingOptions::QrCode),
        Err(EncodingError::InvalidAddressType(0xf0))
    );
}

#[test]
fn null_and_builtin_types() {
    assert_eq!(AddressType::from_address(&[0u8; 20]), Ok(AddressType::Null));
    let mut b = [0u8; 20];
    b[19] = 2;
    assert_eq!(AddressType::from_address(&b), Ok(AddressType::Builtin));
    assert_eq!(AddressType::Null.to_str(), "null");
    assert_eq!(AddressType::parse("builtin"), Ok(AddressType::Builtin));
}

#[test]
fn network_prefixes() {
    assert_eq!(Network::Main.to_prefix().unwrap(), "cfx");
    assert_eq!(Network::Test.to_prefix().unwrap(), "cfxtest");
    assert_eq!(Network::Id(12345).to_prefix().unwrap(), "net12345");
    assert_eq!(Network::from_prefix("net+7"), Ok(Network::Id(7)));
    assert_eq!(Network::from_prefix("net007"), Ok(Network::Id(7)));
    assert_eq!(Network::from_prefix("net1029"), Err(DecodingError::InvalidPrefix("net1029".to_string())));
    assert_eq!(Network::from_prefix("net18446744073709551616"), Err(DecodingError::InvalidPrefix("net18446744073709551616".to_string())));
    assert_eq!(Network::from_prefix("cfxtest"), Ok(Network::Test));
}

#[test]
fn convert_bits_padding() {
    assert_eq!(convert_bits(&[0xff], 8, 5, true).unwrap(), vec![31, 28]);
    assert_eq!(convert_bits(&[31, 28], 5, 8, false).unwrap(), vec![0xff]);
    assert_eq!(
        convert_bits(&[31, 29], 5, 8, false),
        Err(DecodingError::InvalidPadding { from_bits: 5, padding_bits: 2, padding: 1 })
    );
    assert_eq!(
        convert_bits(&[31, 28, 0], 5, 8, false),
        Err(DecodingError::InvalidPadding { from_bits: 5, padding_bits: 7, padding: 0 })
    );
}

#[test]
fn polymod_of_empty_is_zero() {
    assert_eq!(polymod(&[]), 0);
    assert_eq!(expand_prefix(&['c', 'f', 'x']), vec![3, 6, 24, 0]);
}

#[test]
fn encode_contract_address() {
    let raw = hex("85d80245dc02f5a89589e1f19c5c718e405b56cd");
    assert_eq!(
        cfx_addr_encode(&raw, Network::Main, EncodingOptions::Simple).unwrap(),
        "cfx:acc7uawf5ubtnmezvhu9dhc6sghea0403y2dgpyfjp"
    );
    assert_eq!(
        cfx_addr_encode(&raw, Network::Test, EncodingOptions::Simple).unwrap(),
        "cfxtest:acc7uawf5ubtnmezvhu9dhc6sghea0403ywjz6wtpg"
    );
}

#[test]
fn encode_rejects_bad_length() {
    assert_eq!(
        cfx_addr_encode(&[1u8; 21], Network::Main, EncodingOptions::Simple),
        Err(EncodingError::InvalidLength(21))
    );
}

#[test]
fn encode_rejects_reserved_network_ids() {
    let raw = hex("106d49f8505410eb4e671d51f7d96d2c87807b09");
    assert_eq!(
        cfx_addr_encode(&raw, Network::Id(1), EncodingOptions::Simple),
        Err(EncodingError::InvalidNetworkId(1))
    );
    assert_eq!(
        cfx_addr_encode(&raw, Network::Id(1029), EncodingOptions::Simple),
        Err(EncodingError::InvalidNetworkId(1029))
    );
}

#[test]
fn decode_of_encode_gives_back_hash_and_network() {
    for (raw, net) in [
        (vec![0x10u8; 20], Network::Main),
        (vec![0x80u8; 20], Network::Test),
        (vec![0u8; 20], Network::Id(7)),
        (vec![0xabu8; 32], Network::Main),
        (vec![0x5au8; 64], Network::Id(12345)),
    ] {
        for opt in [EncodingOptions::Simple, EncodingOptions::QrCode] {
            let s = match cfx_addr_encode(&raw, net, opt) {
                Ok(s) => s,
                Err(_) => continue,
            };
            let d = cfx_addr_decode(&s).unwrap();
            assert_eq!(d.parsed_address_bytes, raw);
            assert_eq!(d.network, net);
            assert_eq!(d.input_base32_address, s);
            assert_eq!(d.hex_address.is_some(), raw.len() == 20);
        }
    }
}

#[test]
fn encoded_checksum_verifies() {
    let s = cfx_addr_encode(&[0x42u8; 20], Network::Main, EncodingOptions::Simple).unwrap();
    let payload: Vec<char> = s["cfx:".len()..].chars().collect();
    let alphabet = "abcdefghjkmnprstuvwxyz0123456789";
    let digits: Vec<u8> = payload
        .iter()
        .map(|c| alphabet.find(*c).unwrap() as u8)
        .collect();
    let mut input = expand_prefix(&['c', 'f', 'x']);
    input.extend(digits);
    assert_eq!(polymod(&input), 0);
}

#[test]
fn convert_bits_roundtrip() {
    let bytes: Vec<u8> = (0u8..=40).map(|i| i.wrapping_mul(37)).collect();
    let fives = convert_bits(&bytes, 8, 5, true).unwrap();
    assert!(fives.iter().all(|d| *d < 32));
    assert_eq!(convert_bits(&fives, 5, 8, false).unwrap(), bytes);
}

#[test]
fn address_type_names_roundtrip() {
    for t in [AddressType::Builtin, AddressType::Contract, AddressType::Null, AddressType::User] {
        assert_eq!(AddressType::parse(t.to_str()), Ok(t));
    }
}

#[test]
fn unknown_options_are_ignored() {
    let plain = cfx_addr_decode("cfx:aajg4wt2mbmbb44sp6szd783ry0jtad5bea80xdy7p").unwrap();
    let s = "cfx:foo.bar:aajg4wt2mbmbb44sp6szd783ry0jtad5bea80xdy7p";
    let with = cfx_addr_decode(s).unwrap();
    assert_eq!(with.parsed_address_bytes, plain.parsed_address_bytes);
    assert_eq!(with.network, plain.network);
    assert_eq!(with.hex_address, plain.hex_address);
    assert_eq!(with.input_base32_address, s);
}

#[test]
fn encoding_a_decoded_address_gives_its_lower_case() {
    for s in [
        "cfx:aajg4wt2mbmbb44sp6szd783ry0jtad5bea80xdy7p",
        "CFX:ACC7UAWF5UBTNMEZVHU9DHC6SGHEA0403Y2DGPYFJP",
        "cfxtest:acc7uawf5ubtnmezvhu9dhc6sghea0403ywjz6wtpg",
    ] {
        let d = cfx_addr_decode(s).unwrap();
        let e = cfx_addr_encode(&d.parsed_address_bytes, d.network, EncodingOptions::Simple).unwrap();
        assert_eq!(e, s.to_lowercase());
    }
}

#[test]
fn unknown_options_are_ignored_in_upper_case() {
    let plain = cfx_addr_decode("CFX:AAJG4WT2MBMBB44SP6SZD783RY0JTAD5BEA80XDY7P").unwrap();
    let s = "CFX:FOO.BAR:AAJG4WT2MBMBB44SP6SZD783RY0JTAD5BEA80XDY7P";
    let with = cfx_addr_decode(s).unwrap();
    assert_eq!(with.parsed_address_bytes, plain.parsed_address_bytes);
    assert_eq!(with.network, plain.network);
    assert_eq!(with.hex_address, plain.hex_address);
    assert_eq!(with.input_base32_address, s);
    // A key that lower-cases to `type` is not ignored.
    assert!(cfx_addr_decode("CFX:TYPE.BAR:AAJG4WT2MBMBB44SP6SZD783RY0JTAD5BEA80XDY7P").is_err());
}
