//! The types of the base32 address format: networks, address types, options
//! and errors.
use vstd::prelude::*;

verus! {

/// A 20-byte account address.
#[derive(Clone, Copy, Debug, PartialEq, Eq)]
pub struct Address(pub [u8; 20]);

/// A 32-byte hash, as of a block.
#[derive(Clone, Copy, Debug, PartialEq, Eq, Hash, PartialOrd, Ord)]
pub struct H256(pub [u8; 32]);

/// The network an address belongs to.
#[derive(Clone, Copy, Debug, PartialEq, Eq, Structural)]
pub enum Network {
    /// Main network.
    Main,
    /// Test network.
    Test,
    /// Specific network id.
    Id(u64),
}

/// The kind of account an address names.
#[derive(Clone, Copy, Debug, PartialEq, Eq, Structural)]
pub enum AddressType {
    Builtin,
    Contract,
    Null,
    User,
}

/// How an address is written.
#[derive(Clone, Copy, Debug, PartialEq, Eq, Structural)]
pub enum EncodingOptions {
    /// `prefix:payload`, lower case.
    Simple,
    /// `PREFIX:TYPE.<type>:PAYLOAD`, upper case.
    QrCode,
}

/// Errors when encoding an address.
#[derive(Clone, Copy, Debug, PartialEq, Eq, Structural)]
pub enum EncodingError {
    /// The type bits of the address name no address type.
    InvalidAddressType(u8),
    /// The raw address has a length that no version byte describes.
    InvalidLength(usize),
    /// The network id is that of the main or the test network.
    InvalidNetworkId(u64),
}

/// Errors in the options part of an address.
#[derive(Debug, PartialEq, Eq)]
pub enum OptionError {
    /// The option is not of the form `key.value`.
    ParseError(String),
    /// The address type given as option does not match the address.
    AddressTypeMismatch { expected: AddressType, got: Result<AddressType, ()> },
    /// The address type given as option is unknown.
    InvalidAddressType(String),
}

/// Errors when decoding an address.
#[derive(Debug, PartialEq, Eq)]
pub enum DecodingError {
    /// Invalid length (length).
    InvalidLength(usize),
    /// No prefix separated by `:`.
    NoPrefix,
    /// The prefix names no network (prefix).
    InvalidPrefix(String),
    /// An option is malformed or contradicts the address.
    InvalidOption(OptionError),
    /// The checksum does not verify (checksum).
    ChecksumFailed(u64),
    /// A character outside the alphabet (char).
    InvalidChar(char),
    /// Too many padding bits, or padding bits that are not zero.
    InvalidPadding { from_bits: u8, padding_bits: u8, padding: u16 },
    /// The version byte has reserved bits set.
    VersionNotRecognized(u8),
    /// Upper and lower case letters mixed.
    MixedCase,
}

/// A decoded address.
#[derive(Debug, PartialEq, Eq)]
pub struct DecodedRawAddress {
    /// The address as it was given.
    pub input_base32_address: String,
    /// The hash that the address carries.
    pub parsed_address_bytes: Vec<u8>,
    /// The 20-byte address, where the hash has 160 bits.
    pub hex_address: Option<Address>,
    /// The network of the address.
    pub network: Network,
}

/// The model of `OptionError`, with strings as character sequences.
pub enum SpecOptionError {
    ParseError(Seq<char>),
    AddressTypeMismatch { expected: AddressType, got: Result<AddressType, ()> },
    InvalidAddressType(Seq<char>),
}

/// The model of `DecodingError`, with strings as character sequences.
pub enum SpecDecodingError {
    InvalidLength(usize),
    NoPrefix,
    InvalidPrefix(Seq<char>),
    InvalidOption(SpecOptionError),
    ChecksumFailed(u64),
    InvalidChar(char),
    InvalidPadding { from_bits: u8, padding_bits: u8, padding: u16 },
    VersionNotRecognized(u8),
    MixedCase,
}

/// The model of `DecodedRawAddress`.
pub struct SpecDecodedAddress {
    pub input_base32_address: Seq<char>,
    pub parsed_address_bytes: Seq<u8>,
    pub hex_address: Option<Seq<u8>>,
    pub network: Network,
}

impl View for OptionError {
    type V = SpecOptionError;

    open spec fn view(&self) -> SpecOptionError {
        match self {
            OptionError::ParseError(s) => SpecOptionError::ParseError(s@),
            OptionError::AddressTypeMismatch { expected, got } => {
                SpecOptionError::AddressTypeMismatch { expected: *expected, got: *got }
            },
            OptionError::InvalidAddressType(s) => SpecOptionError::InvalidAddressType(s@),
        }
    }
}

impl View for DecodingError {
    type V = SpecDecodingError;

    open spec fn view(&self) -> SpecDecodingError {
        match self {
            DecodingError::InvalidLength(n) => SpecDecodingError::InvalidLength(*n),
            DecodingError::NoPrefix => SpecDecodingError::NoPrefix,
            DecodingError::InvalidPrefix(s) => SpecDecodingError::InvalidPrefix(s@),
            DecodingError::InvalidOption(e) => SpecDecodingError::InvalidOption(e@),
            DecodingError::ChecksumFailed(c) => SpecDecodingError::ChecksumFailed(*c),
            DecodingError::InvalidChar(c) => SpecDecodingError::InvalidChar(*c),
            DecodingError::InvalidPadding { from_bits, padding_bits, padding } => {
                SpecDecodingError::InvalidPadding {
                    from_bits: *from_bits,
                    padding_bits: *padding_bits,
                    padding: *padding,
                }
            },
            DecodingError::VersionNotRecognized(v) => SpecDecodingError::VersionNotRecognized(*v),
            DecodingError::MixedCase => SpecDecodingError::MixedCase,
        }
    }
}

impl View for DecodedRawAddress {
    type V = SpecDecodedAddress;

    open spec fn view(&self) -> SpecDecodedAddress {
        SpecDecodedAddress {
            input_base32_address: self.input_base32_address@,
            parsed_address_bytes: self.parsed_address_bytes@,
            hex_address: match self.hex_address {
                Some(a) => Some(a.0@),
                None => None,
            },
            network: self.network,
        }
    }
}

} // verus!
