use vstd::prelude::*;
use crate::asset_info::{AssetValue, asset_info_decoder, lemma_asset_info_decoder};
use crate::asset_infos::{AssertInfosIterator, AssetInfos};
use crate::compact::decode_compact;
use crate::error::ParseError;
use crate::parse::{Decoder, decode_many, decode_seq, lemma_seq_bounds, lemma_seq_take, reads_within};
use crate::sats_range::{lemma_sats_range_decoder, sats_range_decoder};
use crate::sats_ranges::{SatsRanges, TxOutIterator};
use crate::var_string::{lemma_var_string_decoder, var_string_decoder};
use crate::var_strings::{VarStrings, VarStringsIterator};

verus! {

/// In a valid sequence the count in front equals the number of elements decoded after it.
pub proof fn law_sequence_count<V>(s: Seq<u8>, f: Decoder<V>)
    requires
        reads_within(f),
        decode_seq(s, f) is Ok,
    ensures
        decode_seq(s, f)->Ok_0.0.len() == decode_compact(s)->Ok_0.0,
{
    lemma_seq_bounds(s, f);
}

/// A sequence of ranges cut short of its encoding fails with `InsufficientBytes`.
pub proof fn law_truncated_sats_ranges(s: Seq<u8>, k: nat)
    requires
        decode_seq(s, sats_range_decoder()) is Ok,
        k < decode_seq(s, sats_range_decoder())->Ok_0.1,
    ensures
        decode_seq(s.take(k as int), sats_range_decoder()) == Err::<(Seq<(u64, u64)>, nat), ParseError>(
            ParseError::InsufficientBytes,
        ),
{
    lemma_sats_range_decoder();
    lemma_seq_bounds(s, sats_range_decoder());
    lemma_seq_take(s, sats_range_decoder(), k);
}

/// A sequence of asset records cut short of its encoding fails with `InsufficientBytes`.
pub proof fn law_truncated_asset_infos(s: Seq<u8>, k: nat)
    requires
        decode_seq(s, asset_info_decoder()) is Ok,
        k < decode_seq(s, asset_info_decoder())->Ok_0.1,
    ensures
        decode_seq(s.take(k as int), asset_info_decoder()) == Err::<(Seq<AssetValue>, nat), ParseError>(
            ParseError::InsufficientBytes,
        ),
{
    lemma_asset_info_decoder();
    lemma_seq_bounds(s, asset_info_decoder());
    lemma_seq_take(s, asset_info_decoder(), k);
}

/// A sequence of var strings cut short of its encoding fails with `InsufficientBytes`.
pub proof fn law_truncated_var_strings(s: Seq<u8>, k: nat)
    requires
        decode_seq(s, var_string_decoder()) is Ok,
        k < decode_seq(s, var_string_decoder())->Ok_0.1,
    ensures
        decode_seq(s.take(k as int), var_string_decoder()) == Err::<(Seq<Seq<u8>>, nat), ParseError>(
            ParseError::InsufficientBytes,
        ),
{
    lemma_var_string_decoder();
    lemma_seq_bounds(s, var_string_decoder());
    lemma_seq_take(s, var_string_decoder(), k);
}

/// Two fresh iterators over the same ranges stand in the same state: the same bytes ahead,
/// decoding as the same values, which are the container's own. Since `next` yields values and
/// bytes fixed by that state alone, both walks yield the same elements, sub-view by sub-view.
pub proof fn law_restart_sats_ranges(c: SatsRanges, a: TxOutIterator, b: TxOutIterator)
    requires
        a.rest() == c.items(),
        b.rest() == c.items(),
        a.rest_bytes() == c.bytes().skip(decode_compact(c.bytes())->Ok_0.1 as int),
        b.rest_bytes() == c.bytes().skip(decode_compact(c.bytes())->Ok_0.1 as int),
        a.decodes_rest(),
        b.decodes_rest(),
    ensures
        a.rest() == b.rest(),
        a.rest_bytes() == b.rest_bytes(),
        decode_many(a.rest_bytes(), c.items().len(), sats_range_decoder()) == Ok::<_, ParseError>(
            (c.items(), a.rest_bytes().len()),
        ),
{
}

/// Two fresh iterators over the same asset records stand in the same state: the same bytes ahead,
/// decoding as the same values, which are the container's own. Since `next` yields values and
/// bytes fixed by that state alone, both walks yield the same elements, sub-view by sub-view.
pub proof fn law_restart_asset_infos(c: AssetInfos, a: AssertInfosIterator, b: AssertInfosIterator)
    requires
        a.rest() == c.items(),
        b.rest() == c.items(),
        a.rest_bytes() == c.bytes().skip(decode_compact(c.bytes())->Ok_0.1 as int),
        b.rest_bytes() == c.bytes().skip(decode_compact(c.bytes())->Ok_0.1 as int),
        a.decodes_rest(),
        b.decodes_rest(),
    ensures
        a.rest() == b.rest(),
        a.rest_bytes() == b.rest_bytes(),
        decode_many(a.rest_bytes(), c.items().len(), asset_info_decoder()) == Ok::<_, ParseError>(
            (c.items(), a.rest_bytes().len()),
        ),
{
}

/// Two fresh iterators over the same var strings stand in the same state: the same bytes ahead,
/// decoding as the same values, which are the container's own. Since `next` yields values and
/// bytes fixed by that state alone, both walks yield the same elements, sub-view by sub-view.
pub proof fn law_restart_var_strings(c: VarStrings, a: VarStringsIterator, b: VarStringsIterator)
    requires
        a.rest() == c.items(),
        b.rest() == c.items(),
        a.rest_bytes() == c.bytes().skip(decode_compact(c.bytes())->Ok_0.1 as int),
        b.rest_bytes() == c.bytes().skip(decode_compact(c.bytes())->Ok_0.1 as int),
        a.decodes_rest(),
        b.decodes_rest(),
    ensures
        a.rest() == b.rest(),
        a.rest_bytes() == b.rest_bytes(),
        decode_many(a.rest_bytes(), c.items().len(), var_string_decoder()) == Ok::<_, ParseError>(
            (c.items(), a.rest_bytes().len()),
        ),
{
}

} // verus!
