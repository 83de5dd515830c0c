use bitcoin::consensus::encode::{deserialize_partial, serialize, VarInt};
use bsl::{encode_len, parse_len};

const SAMPLES: [u64; 12] = [
    0,
    1,
    0xfc,
    0xfd,
    0xfe,
    0xffff,
    0x1_0000,
    0x1234_5678,
    0xffff_ffff,
    0x1_0000_0000,
    0x0102_0304_0506_0708,
    u64::MAX,
];

#[test]
fn encoding_matches_bitcoin_compact_size() {
    for n in SAMPLES {
        assert_eq!(encode_len(n), serialize(&VarInt(n)));
    }
}

#[test]
fn decoding_matches_bitcoin_compact_size() {
    for n in SAMPLES {
        let mut bytes = serialize(&VarInt(n));
        bytes.push(0x5a);
        let (theirs, their_consumed): (VarInt, usize) = deserialize_partial(&bytes).unwrap();
        let ours = parse_len(&bytes).unwrap();
        assert_eq!(ours.n(), theirs.0);
        assert_eq!(ours.consumed(), their_consumed);
    }
}
