//! Closing the record of a file.

use vstd::prelude::*;
use vstd::utf8::encode_utf8;

use crate::bytes::{decimal, lit, put_decimal, put_str};
use crate::hashing::{format_hash, hash_name, HASH_CHARS};
use crate::json::{json_text_field_to, text_field};

use super::options::{OutputFormat, Reporting};

verus! {

/// The record that closes a file which opened one: its name, its hash where one was asked for, and
/// what was found in it.
pub open spec fn json_end(
    path: Seq<u8>,
    reporting: Reporting,
    headed: bool,
    matches: nat,
    lines: nat,
    file_hash: Option<u64>,
) -> Seq<u8> {
    if headed && (reporting.emits() matches Some(config) && config.output_format
        == OutputFormat::Json) {
        lit("{\"type\":\"end\",\"data\":{\"path\":") + text_field(path) + (match file_hash {
            Some(hash) => lit(",\"file_hash\":\"") + encode_utf8(
                hash_name(hash, HASH_CHARS as int),
            ) + lit("\""),
            None => Seq::empty(),
        }) + lit(",\"stats\":{\"matches\":") + decimal(matches) + lit(",\"lines_searched\":")
            + decimal(lines) + lit("}}}\n")
    } else {
        Seq::empty()
    }
}

/// Close the JSON Lines record for a file that opened one, once every window is done.
pub fn print_json_end(
    out: &mut Vec<u8>,
    path: &str,
    reporting: &Reporting,
    printed_heading: bool,
    match_count: usize,
    lines_searched: usize,
    file_hash: Option<u64>,
)
    ensures
        final(out)@ == old(out)@ + json_end(
            encode_utf8(path@),
            *reporting,
            printed_heading,
            match_count as nat,
            lines_searched as nat,
            file_hash,
        ),
{
    broadcast use crate::bytes::group_append;

    match reporting.config() {
        None => {
            return;
        },
        Some(config) => {
            if config.output_format != OutputFormat::Json || !printed_heading {
                return;
            }
        },
    }
    put_str(out, "{\"type\":\"end\",\"data\":{\"path\":");
    json_text_field_to(out, path.as_bytes());
    // On the closing record rather than the opening one, because a file's hash covers bytes the
    // opening record is written long before a stream reaches.
    if let Some(hash) = file_hash {
        put_str(out, ",\"file_hash\":\"");
        put_str(out, format_hash(hash, HASH_CHARS).as_str());
        put_str(out, "\"");
    }
    put_str(out, ",\"stats\":{\"matches\":");
    put_decimal(out, match_count as u64);
    put_str(out, ",\"lines_searched\":");
    put_decimal(out, lines_searched as u64);
    put_str(out, "}}}\n");
}

} // verus!
