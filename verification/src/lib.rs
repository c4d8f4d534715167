//! Verified core of a JSON CRDT library: binary codecs for logical clocks,
//! patches and models, the runtime node graph, JSON Pointer handling and text
//! diffing.

pub mod cbor;
pub mod cbor_enc;
pub mod codec_indexed_binary;
pub mod codec_sidecar_binary;
pub mod crdt_binary;
pub mod json;
pub mod json_pointer;
pub mod model;
pub mod model_api;
pub mod model_runtime;
pub mod patch;
pub mod patch_builder;
pub mod patch_compact_binary_codec;
pub mod patch_clock_codec;
pub mod patch_compact_codec;
pub mod patch_compaction;
pub mod patch_json;
pub mod patch_log;
pub mod patch_verbose_codec;
pub mod text;
pub mod util_diff;

use vstd::prelude::*;
use rand::Rng;

verus! {

/// Minimum valid session id for logical clocks.
pub const MIN_SESSION_ID: u64 = 65536u64;

/// Whether `sid` may identify a session.
pub fn is_valid_session_id(sid: u64) -> (res: bool)
    ensures
        res == (sid >= MIN_SESSION_ID),
{
    sid >= MIN_SESSION_ID
}

/// A number drawn uniformly from `lo..=hi` by the thread-local generator of
/// `rand` (`Rng::gen_range`); the contract claims only that it lies in the
/// range.
#[verifier::external_body]
fn random_in_range(lo: u64, hi: u64) -> (r: u64)
    requires
        lo <= hi,
    ensures
        lo <= r <= hi,
{
    rand::thread_rng().gen_range(lo..=hi)
}

/// A random session id: valid, and no greater than `i64::MAX`.
pub fn generate_session_id() -> (res: u64)
    ensures
        res >= MIN_SESSION_ID,
        res <= i64::MAX,
{
    random_in_range(MIN_SESSION_ID, 0x7fff_ffff_ffff_ffffu64)
}

/// The crate's version.
pub fn version() -> (res: &'static str)
    ensures
        res@ == "0.1.0"@,
{
    "0.1.0"
}

} // verus!
