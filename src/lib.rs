//! Zero-copy decoding of length-prefixed, nested binary records.
//!
//! Every parsed value keeps the exact byte range it was decoded from, so turning a value back
//! into bytes is returning that range. The decoders are stated as spec functions over byte
//! sequences, and each executable parser is proved to agree with its decoder.

pub mod error;
pub mod compact;
pub mod parse;
pub mod var_string;
pub mod sats_range;
pub mod sats_ranges;
pub mod asset_name;
pub mod asset_info;
pub mod asset_infos;
pub mod var_strings;
pub mod laws;

pub use error::ParseError;
pub use compact::{parse_len, encode_len, Len};
pub use parse::ParseResult;
pub use var_string::VarString;
pub use sats_range::SatsRange;
pub use sats_ranges::{SatsRanges, TxOutIterator};
pub use asset_name::AssetName;
pub use asset_info::AssetInfo;
pub use asset_infos::{AssetInfos, AssertInfosIterator};
pub use var_strings::{VarStrings, VarStringsIterator};
