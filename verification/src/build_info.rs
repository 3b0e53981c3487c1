//! Build identity helpers.
//!
//! The build channel and build id come from the environment of the build
//! (`HERDR_BUILD_CHANNEL`, `HERDR_BUILD_ID`); whoever reads them hands the raw
//! values to the functions here, which decide what they mean.

use vstd::prelude::*;
use crate::text::{lemma_trim_idempotent, str_eq, trim, trim_spec};

verus! {

/// Version of this package, the base of every version string.
pub const BASE_VERSION: &'static str = "0.1.0";

/// Fork identity shown in CLI and the in-app About overlay.
pub const FORK_OWNER: &'static str = "dihak";

pub const FORK_REPO: &'static str = "https://github.com/dihak/herdr";

/// The characters of an optional string slice.
pub open spec fn opt_chars(value: Option<&str>) -> Option<Seq<char>> {
    match value {
        Some(s) => Some(s@),
        None => None,
    }
}

/// A set value, trimmed, unless it is missing or blank.
pub open spec fn non_empty_spec(value: Option<Seq<char>>) -> Option<Seq<char>> {
    match value {
        Some(v) => if trim_spec(v).len() == 0 {
            None
        } else {
            Some(trim_spec(v))
        },
        None => None,
    }
}

/// The build channel: the trimmed raw value, or `stable` when it is unset or blank.
pub open spec fn channel_spec(raw_channel: Option<Seq<char>>) -> Seq<char> {
    match non_empty_spec(raw_channel) {
        Some(c) => c,
        None => "stable"@,
    }
}

/// The full version string for a build channel and build id.
pub open spec fn version_spec(raw_channel: Option<Seq<char>>, raw_build_id: Option<Seq<char>>) -> Seq<
    char,
> {
    let channel = channel_spec(raw_channel);
    if channel == "stable"@ {
        BASE_VERSION@
    } else {
        match non_empty_spec(raw_build_id) {
            Some(id) => BASE_VERSION@ + "-"@ + channel + "."@ + id,
            None => BASE_VERSION@ + "-"@ + channel,
        }
    }
}

/// Keeps a value only when it holds something besides white space, and then
/// without its surrounding white space.
pub fn non_empty<'a>(value: Option<&'a str>) -> (r: Option<&'a str>)
    ensures
        opt_chars(r) == non_empty_spec(opt_chars(value)),
{
    match value {
        Some(value) => {
            let trimmed = trim(value);
            if trimmed.is_empty() {
                None
            } else {
                Some(trimmed)
            }
        },
        None => None,
    }
}

/// The build channel named by the raw `HERDR_BUILD_CHANNEL` value.
pub fn channel<'a>(raw_channel: Option<&'a str>) -> (r: &'a str)
    ensures
        r@ == channel_spec(opt_chars(raw_channel)),
{
    match non_empty(raw_channel) {
        Some(c) => c,
        None => "stable",
    }
}

/// The build id named by the raw `HERDR_BUILD_ID` value.
pub fn build_id<'a>(raw_build_id: Option<&'a str>) -> (r: Option<&'a str>)
    ensures
        opt_chars(r) == non_empty_spec(opt_chars(raw_build_id)),
{
    non_empty(raw_build_id)
}

/// The version string: the base version on the stable channel, otherwise
/// `BASE-channel.build_id`, or `BASE-channel` when there is no build id.
pub fn version(raw_channel: Option<&str>, raw_build_id: Option<&str>) -> (r: String)
    ensures
        r@ == version_spec(opt_chars(raw_channel), opt_chars(raw_build_id)),
{
    let channel = channel(raw_channel);
    let mut out = BASE_VERSION.to_owned();
    if str_eq(channel, "stable") {
        return out;
    }
    out.append("-");
    out.append(channel);
    match build_id(raw_build_id) {
        Some(id) => {
            out.append(".");
            out.append(id);
        },
        None => {},
    }
    out
}

/// Whether this build is on the `preview` channel.
pub fn is_preview(raw_channel: Option<&str>) -> (r: bool)
    ensures
        r == (channel_spec(opt_chars(raw_channel)) == "preview"@),
{
    str_eq(channel(raw_channel), "preview")
}

/// Cleaning a value twice is cleaning it once: what `non_empty` keeps is
/// already trimmed and not blank.
pub proof fn lemma_non_empty_idempotent(value: Option<Seq<char>>)
    ensures
        non_empty_spec(non_empty_spec(value)) == non_empty_spec(value),
{
    if let Some(v) = value {
        lemma_trim_idempotent(v);
    }
}

/// A build whose channel is unset, blank or `stable` reports the base
/// version, whatever its build id.
pub proof fn lemma_stable_version(raw_channel: Option<Seq<char>>, raw_build_id: Option<Seq<char>>)
    requires
        raw_channel is None || non_empty_spec(raw_channel) is None || channel_spec(raw_channel)
            == "stable"@,
    ensures
        channel_spec(raw_channel) == "stable"@,
        version_spec(raw_channel, raw_build_id) == BASE_VERSION@,
{
}

/// Any other channel shows in the version, right after the base version.
pub proof fn lemma_channel_in_version(raw_channel: Option<Seq<char>>, raw_build_id: Option<Seq<char>>)
    requires
        channel_spec(raw_channel) != "stable"@,
    ensures
        version_spec(raw_channel, raw_build_id).take(
            (BASE_VERSION@.len() + 1 + channel_spec(raw_channel).len()) as int,
        ) == BASE_VERSION@ + "-"@ + channel_spec(raw_channel),
{
    reveal_strlit("-");
    let prefix = BASE_VERSION@ + "-"@ + channel_spec(raw_channel);
    let v = version_spec(raw_channel, raw_build_id);
    match non_empty_spec(raw_build_id) {
        Some(id) => {
            assert(v == prefix + ("."@ + id)) by {
                assert(prefix + "."@ + id =~= prefix + ("."@ + id));
            }
            assert(v.take(prefix.len() as int) =~= prefix);
        },
        None => {
            assert(v.take(prefix.len() as int) =~= prefix);
        },
    }
}

} // verus!
