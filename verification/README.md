# conflux_utils

Utilities of a Conflux node, written in Verus with their contracts proved:

- `addr`, `addr_laws`, `network`, `utils`, `bits`, `consts`, `types`, `text`:
  the base32 address format (CIP-37): encoding and decoding, the BCH
  checksum, the regrouping of bits, network prefixes and address types.
  `addr_laws` proves that decoding an encoded address gives back its hash,
  its network and, for 20-byte hashes, the address.
- `event`, `block`, `recorder`: the record of the events in the life of each
  block, kept in an LRU cache, and the report lines written when a record is
  complete, evicted or flushed at shutdown.
- `meter`: the meters of peer-to-peer messages, one for all messages, one
  per message kind and one for the others, each made on its first use.
- `genesis`, `keyfile`: the election of the genesis committee of the
  proof-of-stake chain from the SHA3-256 tickets of the initial nodes, and the
  public key file that lists the validators.

`app/` holds what stays outside verification: the process-wide recorder
behind its lock and the log, the files of the genesis tool, and address
decoding that panics where decoding cannot go on.
