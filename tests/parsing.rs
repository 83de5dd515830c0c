use bsl::{
    encode_len, parse_len, AssetInfo, AssetInfos, AssetName, ParseError, SatsRange, SatsRanges,
    VarString, VarStrings,
};

fn var_string_bytes(text: &[u8]) -> Vec<u8> {
    let mut out = encode_len(text.len() as u64);
    out.extend_from_slice(text);
    out
}

fn asset_info_bytes(protocol: &[u8], type_: &[u8], ticker: &[u8], amount: u64, binding: u64) -> Vec<u8> {
    let mut out = var_string_bytes(protocol);
    out.extend(var_string_bytes(type_));
    out.extend(var_string_bytes(ticker));
    out.extend(encode_len(amount));
    out.extend(encode_len(binding));
    out
}

#[test]
fn sequence_of_var_strings_scenario() {
    let bytes = [0x02, 0x05, b'h', b'e', b'l', b'l', b'o', 0x03, b'f', b'o', b'o'];
    let parsed = VarStrings::parse(&bytes).unwrap();
    assert_eq!(parsed.consumed, 11);
    assert!(parsed.remaining.is_empty());
    let seq = parsed.parsed;
    assert_eq!(seq.n(), 2);
    assert_eq!(seq.as_ref(), &bytes[..]);
    let mut it = seq.iter();
    assert_eq!(it.size_hint(), (2, Some(2)));
    let first = it.next().unwrap();
    assert_eq!(first.string().unwrap(), "hello");
    assert_eq!(first.as_ref().len(), 6);
    let second = it.next().unwrap();
    assert_eq!(second.string().unwrap(), "foo");
    assert_eq!(second.as_ref().len(), 4);
    assert!(it.next().is_none());
    assert_eq!(it.size_hint(), (0, Some(0)));
}

#[test]
fn compact_length_two_byte_scenario() {
    let len = parse_len(&[0xfd, 0x00, 0x01]).unwrap();
    assert_eq!(len.n(), 256);
    assert_eq!(len.consumed(), 3);
}

#[test]
fn sats_range_scenario() {
    let bytes = [0x0a, 0x14];
    let parsed = SatsRange::parse(&bytes).unwrap();
    assert_eq!(parsed.parsed.start(), 10);
    assert_eq!(parsed.parsed.size(), 20);
    assert_eq!(parsed.consumed, 2);
    assert!(parsed.remaining.is_empty());
}

#[test]
fn compact_length_round_trip_at_class_edges() {
    let cases: [(u64, usize); 8] = [
        (0, 1),
        (0xfc, 1),
        (0xfd, 3),
        (0xffff, 3),
        (0x1_0000, 5),
        (0xffff_ffff, 5),
        (0x1_0000_0000, 9),
        (u64::MAX, 9),
    ];
    for (value, width) in cases {
        let bytes = encode_len(value);
        assert_eq!(bytes.len(), width);
        let len = parse_len(&bytes).unwrap();
        assert_eq!(len.n(), value);
        assert_eq!(len.consumed(), width);
        assert_eq!(encode_len(len.n()), bytes);
    }
}

#[test]
fn compact_length_exact_encodings() {
    assert_eq!(encode_len(0xfc), vec![0xfc]);
    assert_eq!(encode_len(0xfd), vec![0xfd, 0xfd, 0x00]);
    assert_eq!(encode_len(0x1_0000), vec![0xfe, 0x00, 0x00, 0x01, 0x00]);
    assert_eq!(
        encode_len(0x0102_0304_0506_0708),
        vec![0xff, 0x08, 0x07, 0x06, 0x05, 0x04, 0x03, 0x02, 0x01]
    );
    let len = parse_len(&[0xfe, 0x78, 0x56, 0x34, 0x12, 0xaa]).unwrap();
    assert_eq!(len.n(), 0x1234_5678);
    assert_eq!(len.consumed(), 5);
}

#[test]
fn compact_length_non_minimal_form_is_read() {
    let len = parse_len(&[0xff, 0x05, 0, 0, 0, 0, 0, 0, 0]).unwrap();
    assert_eq!(len.n(), 5);
    assert_eq!(len.consumed(), 9);
}

#[test]
fn compact_length_truncated() {
    assert_eq!(parse_len(&[]), Err(ParseError::InsufficientBytes));
    assert_eq!(parse_len(&[0xfd, 0x00]), Err(ParseError::InsufficientBytes));
    assert_eq!(parse_len(&[0xfe, 0, 0, 0]), Err(ParseError::InsufficientBytes));
    assert_eq!(parse_len(&[0xff, 0, 0, 0, 0, 0, 0, 0]), Err(ParseError::InsufficientBytes));
}

#[test]
fn var_string_consumed_and_remaining() {
    let bytes = [0x03, b'a', b'b', b'c', 0x99, 0x98];
    let parsed = VarString::parse(&bytes).unwrap();
    assert_eq!(parsed.consumed, 4);
    assert_eq!(parsed.remaining, &[0x99, 0x98]);
    assert_eq!(parsed.parsed.as_ref(), &bytes[..4]);
    assert_eq!(parsed.consumed + parsed.remaining.len(), bytes.len());
    assert_eq!(parsed.parsed.string().unwrap(), "abc");
}

#[test]
fn var_string_invalid_text() {
    let bytes = [0x02, 0xff, 0xfe];
    let parsed = VarString::parse(&bytes).unwrap();
    assert_eq!(parsed.parsed.as_ref(), &bytes[..]);
    assert_eq!(parsed.parsed.string(), Err(ParseError::InvalidText));
}

#[test]
fn var_string_payload_too_short() {
    assert_eq!(VarString::parse(&[0x05, b'a', b'b']), Err(ParseError::InsufficientBytes));
}

#[test]
fn var_string_empty_payload() {
    let parsed = VarString::parse(&[0x00]).unwrap();
    assert_eq!(parsed.consumed, 1);
    assert_eq!(parsed.parsed.string().unwrap(), "");
}

#[test]
fn asset_info_fields() {
    let mut bytes = asset_info_bytes(b"ordx", b"ft", b"pizza", 1000, 546);
    let total = bytes.len();
    bytes.push(0x42);
    let parsed = AssetInfo::parse(&bytes).unwrap();
    assert_eq!(parsed.consumed, total);
    assert_eq!(parsed.remaining, &[0x42]);
    let info = parsed.parsed;
    assert_eq!(info.as_ref(), &bytes[..total]);
    assert_eq!(info.amount(), 1000);
    assert_eq!(info.binding_sat(), 546);
    let name = info.name();
    assert_eq!(name.protocol().unwrap(), "ordx");
    assert_eq!(name.type_().unwrap(), "ft");
    assert_eq!(name.ticker().unwrap(), "pizza");
    assert_eq!(name.as_ref().len(), 5 + 3 + 6);
}

#[test]
fn asset_name_alone() {
    let bytes = [0x01, b'a', 0x00, 0x02, b'x', b'y', 0x07];
    let parsed = AssetName::parse(&bytes).unwrap();
    assert_eq!(parsed.consumed, 6);
    assert_eq!(parsed.remaining, &[0x07]);
    assert_eq!(parsed.parsed.protocol().unwrap(), "a");
    assert_eq!(parsed.parsed.type_().unwrap(), "");
    assert_eq!(parsed.parsed.ticker().unwrap(), "xy");
}

#[test]
fn asset_info_amount_out_of_range() {
    let bytes = asset_info_bytes(b"p", b"t", b"k", 0x8000_0000_0000_0000, 1);
    assert_eq!(AssetInfo::parse(&bytes), Err(ParseError::InvalidEncoding));
    let bytes = asset_info_bytes(b"p", b"t", b"k", i64::MAX as u64, 1);
    assert_eq!(AssetInfo::parse(&bytes).unwrap().parsed.amount(), i64::MAX);
}

#[test]
fn asset_info_binding_out_of_range() {
    let bytes = asset_info_bytes(b"p", b"t", b"k", 5, 0x1_0000);
    assert_eq!(AssetInfo::parse(&bytes), Err(ParseError::InvalidEncoding));
    let bytes = asset_info_bytes(b"p", b"t", b"k", 5, 0xffff);
    assert_eq!(AssetInfo::parse(&bytes).unwrap().parsed.binding_sat(), 0xffff);
}

#[test]
fn asset_info_truncated_at_every_length() {
    let bytes = asset_info_bytes(b"runes", b"nft", b"dog#1", 0x1_0000, 300);
    for k in 0..bytes.len() {
        assert_eq!(AssetInfo::parse(&bytes[..k]), Err(ParseError::InsufficientBytes));
    }
    assert!(AssetInfo::parse(&bytes).is_ok());
}

fn two_asset_infos() -> Vec<u8> {
    let mut bytes = vec![0x02];
    bytes.extend(asset_info_bytes(b"ordx", b"ft", b"rarepizza", 7, 1));
    bytes.extend(asset_info_bytes(b"brc20", b"ft", b"ordi", 0xfd, 0));
    bytes
}

#[test]
fn asset_infos_iterate_twice() {
    let bytes = two_asset_infos();
    let parsed = AssetInfos::parse(&bytes).unwrap();
    assert_eq!(parsed.consumed, bytes.len());
    let infos = parsed.parsed;
    assert_eq!(infos.n(), 2);
    assert!(!infos.is_empty());
    let mut rounds: Vec<Vec<(String, i64, u16)>> = Vec::new();
    for _ in 0..2 {
        let mut it = infos.iter();
        let mut seen = Vec::new();
        while let Some(info) = it.next() {
            seen.push((info.name().ticker().unwrap(), info.amount(), info.binding_sat()));
        }
        rounds.push(seen);
    }
    assert_eq!(rounds[0].len(), 2);
    assert_eq!(rounds[0], rounds[1]);
    assert_eq!(rounds[0][0], ("rarepizza".to_string(), 7, 1));
    assert_eq!(rounds[0][1], ("ordi".to_string(), 0xfd, 0));
}

#[test]
fn asset_infos_truncated_at_every_length() {
    let bytes = two_asset_infos();
    for k in 0..bytes.len() {
        assert_eq!(AssetInfos::parse(&bytes[..k]), Err(ParseError::InsufficientBytes));
    }
}

#[test]
fn asset_infos_empty() {
    let infos = AssetInfos::empty();
    assert!(infos.is_empty());
    assert_eq!(infos.n(), 0);
    assert_eq!(infos.as_ref(), &[0x00]);
    assert!(infos.iter().next().is_none());
}

#[test]
fn sats_ranges_count_agreement() {
    let bytes = [0x03, 0x01, 0x02, 0xfd, 0x00, 0x01, 0x05, 0x00, 0x00, 0xee];
    let parsed = SatsRanges::parse(&bytes).unwrap();
    assert_eq!(parsed.consumed, 9);
    assert_eq!(parsed.remaining, &[0xee]);
    let ranges = parsed.parsed;
    assert_eq!(ranges.n(), 3);
    let mut it = ranges.iter();
    assert_eq!(it.size_hint(), (3, Some(3)));
    let mut yielded = Vec::new();
    while let Some(r) = it.next() {
        yielded.push((r.start(), r.size()));
    }
    assert_eq!(yielded, vec![(1, 2), (256, 5), (0, 0)]);
    assert_eq!(yielded.len(), ranges.n());
    let again: Vec<(u64, u64)> = {
        let mut it = ranges.iter();
        let mut v = Vec::new();
        while let Some(r) = it.next() {
            v.push((r.start(), r.size()));
        }
        v
    };
    assert_eq!(again, yielded);
}

#[test]
fn sats_ranges_truncated_at_every_length() {
    let bytes = [0x02, 0x01, 0x02, 0xfe, 0x00, 0x00, 0x01, 0x00, 0x05];
    assert!(SatsRanges::parse(&bytes).is_ok());
    for k in 0..bytes.len() {
        assert_eq!(SatsRanges::parse(&bytes[..k]), Err(ParseError::InsufficientBytes));
    }
}

#[test]
fn sats_ranges_huge_count_fails_fast() {
    let mut bytes = vec![0xff, 0, 0, 0, 0, 0, 0, 0, 0x80];
    bytes.extend_from_slice(&[0x01, 0x02, 0x03, 0x04]);
    assert_eq!(SatsRanges::parse(&bytes), Err(ParseError::InsufficientBytes));
}

#[test]
fn sats_ranges_empty() {
    let ranges = SatsRanges::empty();
    assert!(ranges.is_empty());
    assert_eq!(ranges.n(), 0);
    assert_eq!(ranges.as_ref(), &[0x00]);
    assert_eq!(ranges.iter().size_hint(), (0, Some(0)));
    let parsed = SatsRanges::parse(&[0x00]).unwrap();
    assert!(parsed.parsed.is_empty());
    assert_eq!(parsed.consumed, 1);
}

#[test]
fn var_strings_empty_and_invalid_element() {
    let strings = VarStrings::empty();
    assert!(strings.is_empty());
    assert_eq!(strings.n(), 0);
    assert_eq!(VarStrings::parse(&[0x02, 0x01, b'a', 0x04, b'b']), Err(ParseError::InsufficientBytes));
}

#[test]
fn asset_name_sub_views() {
    let bytes = [0x01, b'a', 0x00, 0x02, b'x', b'y', 0x07];
    let name = AssetName::parse(&bytes).unwrap().parsed;
    assert_eq!(name.protocol_var().as_ref(), &[0x01, b'a']);
    assert_eq!(name.type_var().as_ref(), &[0x00]);
    assert_eq!(name.ticker_var().as_ref(), &[0x02, b'x', b'y']);
    assert_eq!(name.ticker_var().string().unwrap(), "xy");
}

#[test]
fn asset_info_name_is_leading_sub_view() {
    let bytes = asset_info_bytes(b"ordx", b"ft", b"pizza", 0x1_0000, 7);
    let info = AssetInfo::parse(&bytes).unwrap().parsed;
    let name = info.name().as_ref();
    assert_eq!(name, &info.as_ref()[..name.len()]);
    assert_eq!(*info.name(), AssetName::parse(info.as_ref()).unwrap().parsed);
    assert_eq!(name.len(), 5 + 3 + 6);
}

#[test]
fn iterator_yields_exact_sub_views() {
    let bytes = [0x02, 0x01, 0x01, 0xfd, 0x01, 0x00, 0x01];
    let ranges = SatsRanges::parse(&bytes).unwrap().parsed;
    let mut it = ranges.iter();
    assert_eq!(it.len(), 2);
    let first = it.next().unwrap();
    assert_eq!(first.as_ref(), &[0x01, 0x01]);
    let second = it.next().unwrap();
    assert_eq!(second.as_ref(), &[0xfd, 0x01, 0x00, 0x01]);
    assert_eq!((second.start(), second.size()), (1, 1));
    assert!(it.next().is_none());
    assert!(it.next().is_none());
    assert_eq!(it.len(), 0);
    assert_eq!(ranges.iter().count(), ranges.n());
}

#[test]
fn iterators_restart_with_same_elements() {
    let bytes = two_asset_infos();
    let infos = AssetInfos::parse(&bytes).unwrap().parsed;
    let walk = || {
        let mut it = infos.iter();
        let mut v = Vec::new();
        while let Some(x) = it.next() {
            v.push(x);
        }
        v
    };
    let a = walk();
    let b = walk();
    assert_eq!(a, b);
    assert_eq!(a.len(), infos.n());
    assert_eq!(infos.iter().count(), 2);
    assert_eq!(a[0].as_ref(), &bytes[1..1 + a[0].as_ref().len()]);

    let bytes = [0x02, 0x05, b'h', b'e', b'l', b'l', b'o', 0x03, b'f', b'o', b'o'];
    let strings = VarStrings::parse(&bytes).unwrap().parsed;
    let mut it = strings.iter();
    assert_eq!(it.next().unwrap().as_ref(), &bytes[1..7]);
    assert_eq!(it.next().unwrap().as_ref(), &bytes[7..]);
    assert_eq!(strings.iter().count(), strings.n());
}
