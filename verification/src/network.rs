//! Networks and their address prefixes; address types and their names.
use vstd::prelude::*;
use crate::consts::{
    MAINNET_ID, TESTNET_ID, TYPE_BITS_BUILTIN, TYPE_BITS_CONTRACT, TYPE_BITS_USER_ACCOUNT,
};
use crate::text::{
    chars_eq, chars_of, decimal, parse_u64, spec_decimal, spec_parse_u64, string_of,
};
use crate::types::{
    AddressType, DecodingError, EncodingError, Network, OptionError, SpecDecodingError,
    SpecOptionError,
};

verus! {

/// Prefix of main network addresses.
pub open spec fn mainnet_prefix() -> Seq<char> {
    seq!['c', 'f', 'x']
}

/// Prefix of test network addresses.
pub open spec fn testnet_prefix() -> Seq<char> {
    seq!['c', 'f', 'x', 't', 'e', 's', 't']
}

/// Start of the prefix of the addresses of other networks, before the id.
pub open spec fn network_id_prefix() -> Seq<char> {
    seq!['n', 'e', 't']
}

/// The address prefix of a network.
pub open spec fn spec_to_prefix(n: Network) -> Result<Seq<char>, EncodingError> {
    match n {
        Network::Main => Ok(mainnet_prefix()),
        Network::Test => Ok(testnet_prefix()),
        Network::Id(id) => if id == MAINNET_ID || id == TESTNET_ID {
            Err(EncodingError::InvalidNetworkId(id))
        } else {
            Ok(network_id_prefix() + spec_decimal(id as nat))
        },
    }
}

/// The network that an address prefix names.
pub open spec fn spec_from_prefix(p: Seq<char>) -> Result<Network, SpecDecodingError> {
    if p == mainnet_prefix() {
        Ok(Network::Main)
    } else if p == testnet_prefix() {
        Ok(Network::Test)
    } else if p.len() >= 3 && p.take(3) == network_id_prefix() && spec_parse_u64(p.skip(3)) is Some
        && spec_parse_u64(p.skip(3))->0 != MAINNET_ID && spec_parse_u64(p.skip(3))->0
        != TESTNET_ID {
        Ok(Network::Id(spec_parse_u64(p.skip(3))->0))
    } else {
        Err(SpecDecodingError::InvalidPrefix(p))
    }
}

/// The address prefix of a network, as characters.
pub fn to_prefix_chars(n: &Network) -> (r: Result<Vec<char>, EncodingError>)
    ensures
        match r {
            Ok(p) => spec_to_prefix(*n) == Ok::<Seq<char>, EncodingError>(p@),
            Err(e) => spec_to_prefix(*n) == Err::<Seq<char>, EncodingError>(e),
        },
{
    match n {
        Network::Main => Ok(vec!['c', 'f', 'x']),
        Network::Test => Ok(vec!['c', 'f', 'x', 't', 'e', 's', 't']),
        Network::Id(id) => {
            if *id == MAINNET_ID || *id == TESTNET_ID {
                Err(EncodingError::InvalidNetworkId(*id))
            } else {
                let mut p = vec!['n', 'e', 't'];
                let d = decimal(*id);
                let mut i: usize = 0;
                while i < d.len()
                    invariant
                        i <= d.len(),
                        p@ == network_id_prefix() + d@.take(i as int),
                    decreases d.len() - i,
                {
                    p.push(d[i]);
                    proof {
                        assert(d@.take(i + 1) =~= d@.take(i as int).push(d@[i as int]));
                    }
                    i = i + 1;
                }
                proof {
                    assert(d@.take(d.len() as int) =~= d@);
                }
                Ok(p)
            }
        },
    }
}

/// The network named by an address prefix.
pub fn from_prefix_chars(p: &[char]) -> (r: Result<Network, DecodingError>)
    ensures
        match r {
            Ok(n) => spec_from_prefix(p@) == Ok::<Network, SpecDecodingError>(n),
            Err(e) => spec_from_prefix(p@) == Err::<Network, SpecDecodingError>(e@),
        },
{
    let main = vec!['c', 'f', 'x'];
    let test = vec!['c', 'f', 'x', 't', 'e', 's', 't'];
    if chars_eq(p, main.as_slice()) {
        return Ok(Network::Main);
    }
    if chars_eq(p, test.as_slice()) {
        return Ok(Network::Test);
    }
    if p.len() >= 3 && p[0] == 'n' && p[1] == 'e' && p[2] == 't' {
        proof {
            assert(p@.take(3) =~= network_id_prefix());
        }
        let mut rest: Vec<char> = Vec::new();
        let mut i: usize = 3;
        while i < p.len()
            invariant
                3 <= i <= p.len(),
                rest@ == p@.subrange(3, i as int),
            decreases p.len() - i,
        {
            rest.push(p[i]);
            proof {
                assert(p@.subrange(3, i + 1) =~= p@.subrange(3, i as int).push(p@[i as int]));
            }
            i = i + 1;
        }
        proof {
            assert(rest@ =~= p@.skip(3));
        }
        match parse_u64(rest.as_slice()) {
            Some(id) => {
                if id != MAINNET_ID && id != TESTNET_ID {
                    return Ok(Network::Id(id));
                }
            },
            None => {},
        }
    } else {
        proof {
            if p@.len() >= 3 && p@.take(3) == network_id_prefix() {
                assert(p@[0] == p@.take(3)[0]);
                assert(p@[1] == p@.take(3)[1]);
                assert(p@[2] == p@.take(3)[2]);
            }
        }
    }
    Err(DecodingError::InvalidPrefix(string_of(p)))
}

impl Network {
    /// The address prefix of the network: `cfx` for the main network,
    /// `cfxtest` for the test network, `net` and the id for any other; the ids
    /// of the main and the test network are refused as plain ids.
    pub fn to_prefix(&self) -> (r: Result<String, EncodingError>)
        ensures
            match r {
                Ok(p) => spec_to_prefix(*self) == Ok::<Seq<char>, EncodingError>(p@),
                Err(e) => spec_to_prefix(*self) == Err::<Seq<char>, EncodingError>(e),
            },
    {
        match to_prefix_chars(self) {
            Ok(p) => Ok(string_of(p.as_slice())),
            Err(e) => Err(e),
        }
    }

    /// The network that an address prefix names.
    pub fn from_prefix(prefix: &str) -> (r: Result<Network, DecodingError>)
        ensures
            match r {
                Ok(n) => spec_from_prefix(prefix@) == Ok::<Network, SpecDecodingError>(n),
                Err(e) => spec_from_prefix(prefix@) == Err::<Network, SpecDecodingError>(e@),
            },
    {
        let p = chars_of(prefix);
        from_prefix_chars(p.as_slice())
    }
}

/// The name of an address type, as used in the `type.` option.
pub open spec fn spec_type_name(t: AddressType) -> Seq<char> {
    match t {
        AddressType::Builtin => seq!['b', 'u', 'i', 'l', 't', 'i', 'n'],
        AddressType::Contract => seq!['c', 'o', 'n', 't', 'r', 'a', 'c', 't'],
        AddressType::Null => seq!['n', 'u', 'l', 'l'],
        AddressType::User => seq!['u', 's', 'e', 'r'],
    }
}

/// The address type that a name names.
pub open spec fn spec_parse_type(text: Seq<char>) -> Result<AddressType, SpecDecodingError> {
    if text == spec_type_name(AddressType::Builtin) {
        Ok(AddressType::Builtin)
    } else if text == spec_type_name(AddressType::Contract) {
        Ok(AddressType::Contract)
    } else if text == spec_type_name(AddressType::Null) {
        Ok(AddressType::Null)
    } else if text == spec_type_name(AddressType::User) {
        Ok(AddressType::User)
    } else {
        Err(SpecDecodingError::InvalidOption(SpecOptionError::InvalidAddressType(text)))
    }
}

/// The address type of a raw address: its type bits (the high nibble of its
/// first byte) decide, and an address of zero bytes only is the null address.
pub open spec fn spec_address_type(raw: Seq<u8>) -> Result<AddressType, EncodingError> {
    let bits = raw[0] & 0xf0u8;
    if bits == TYPE_BITS_BUILTIN {
        if forall|i: int| 0 <= i < raw.len() ==> #[trigger] raw[i] == 0 {
            Ok(AddressType::Null)
        } else {
            Ok(AddressType::Builtin)
        }
    } else if bits == TYPE_BITS_CONTRACT {
        Ok(AddressType::Contract)
    } else if bits == TYPE_BITS_USER_ACCOUNT {
        Ok(AddressType::User)
    } else {
        Err(EncodingError::InvalidAddressType(bits))
    }
}

/// The name of an address type, as characters.
pub fn type_name_chars(t: AddressType) -> (r: Vec<char>)
    ensures
        r@ == spec_type_name(t),
{
    match t {
        AddressType::Builtin => vec!['b', 'u', 'i', 'l', 't', 'i', 'n'],
        AddressType::Contract => vec!['c', 'o', 'n', 't', 'r', 'a', 'c', 't'],
        AddressType::Null => vec!['n', 'u', 'l', 'l'],
        AddressType::User => vec!['u', 's', 'e', 'r'],
    }
}

/// The address type that a name names, on characters.
pub fn parse_type_chars(text: &[char]) -> (r: Result<AddressType, DecodingError>)
    ensures
        match r {
            Ok(t) => spec_parse_type(text@) == Ok::<AddressType, SpecDecodingError>(t),
            Err(e) => spec_parse_type(text@) == Err::<AddressType, SpecDecodingError>(e@),
        },
{
    let builtin = type_name_chars(AddressType::Builtin);
    let contract = type_name_chars(AddressType::Contract);
    let null = type_name_chars(AddressType::Null);
    let user = type_name_chars(AddressType::User);
    if chars_eq(text, builtin.as_slice()) {
        Ok(AddressType::Builtin)
    } else if chars_eq(text, contract.as_slice()) {
        Ok(AddressType::Contract)
    } else if chars_eq(text, null.as_slice()) {
        Ok(AddressType::Null)
    } else if chars_eq(text, user.as_slice()) {
        Ok(AddressType::User)
    } else {
        Err(DecodingError::InvalidOption(OptionError::InvalidAddressType(string_of(text))))
    }
}

impl AddressType {
    /// The name of the address type.
    pub fn to_str(&self) -> (r: &'static str)
        ensures
            r@ == spec_type_name(*self),
    {
        match self {
            AddressType::Builtin => {
                proof {
                    reveal_strlit("builtin");
                }
                "builtin"
            },
            AddressType::Contract => {
                proof {
                    reveal_strlit("contract");
                }
                "contract"
            },
            AddressType::Null => {
                proof {
                    reveal_strlit("null");
                }
                "null"
            },
            AddressType::User => {
                proof {
                    reveal_strlit("user");
                }
                "user"
            },
        }
    }

    /// The address type that a name names.
    pub fn parse(text: &str) -> (r: Result<AddressType, DecodingError>)
        ensures
            match r {
                Ok(t) => spec_parse_type(text@) == Ok::<AddressType, SpecDecodingError>(t),
                Err(e) => spec_parse_type(text@) == Err::<AddressType, SpecDecodingError>(e@),
            },
    {
        let t = chars_of(text);
        parse_type_chars(t.as_slice())
    }

    /// The address type of a raw address.
    pub fn from_address(raw: &[u8]) -> (r: Result<AddressType, EncodingError>)
        requires
            raw@.len() > 0,
        ensures
            r == spec_address_type(raw@),
    {
        let bits = raw[0] & 0xf0u8;
        if bits == TYPE_BITS_BUILTIN {
            let mut i: usize = 0;
            while i < raw.len()
                invariant
                    i <= raw.len(),
                    raw@.len() > 0,
                    raw@[0] & 0xf0u8 == TYPE_BITS_BUILTIN,
                    forall|j: int| 0 <= j < i ==> raw@[j] == 0,
                decreases raw.len() - i,
            {
                if raw[i] != 0 {
                    assert(!(forall|j: int| 0 <= j < raw@.len() ==> #[trigger] raw@[j] == 0));
                    return Ok(AddressType::Builtin);
                }
                i = i + 1;
            }
            Ok(AddressType::Null)
        } else if bits == TYPE_BITS_CONTRACT {
            Ok(AddressType::Contract)
        } else if bits == TYPE_BITS_USER_ACCOUNT {
            Ok(AddressType::User)
        } else {
            Err(EncodingError::InvalidAddressType(bits))
        }
    }
}

} // verus!
