//! A lightweight local task tracker built around a verified dependency
//! graph engine: tasks ("wires") with statuses and priorities, directed
//! dependency edges kept acyclic at every step, and a readiness query
//! that says what to work on next.
//!
//! The engine is an in-memory store ([`store::Store`]) whose operations
//! carry full contracts; persistence, command parsing and rendering to a
//! terminal live outside it and hand it plain values.

pub mod format;
pub mod graph;
pub mod models;
pub mod ready;
pub mod store;
pub mod text;

use crate::models::is_lower_hex_digit;
use sha2::Digest;
use crate::text::{dec_digit, dec_rep, string_from_chars, u64_to_string};
use vstd::prelude::*;
use vstd::string::*;

verus! {

/// The SHA-256 digest of a byte string; a function of the input alone.
pub uninterp spec fn sha256_of(input: Seq<u8>) -> Seq<u8>;

/// Relies on sha2's Sha256::digest: computes the SHA-256 digest of the
/// input, 32 bytes long, determined by the input bytes alone.
#[verifier::external_body]
fn sha256_bytes(input: &[u8]) -> (r: Vec<u8>)
    ensures
        r@ == sha256_of(input@),
        r@.len() == 32,
{
    sha2::Sha256::digest(input).to_vec()
}

/// Relies on std's SystemTime: the clock reading in nanoseconds since the
/// Unix epoch, truncated to 64 bits. Nothing is promised of the value.
#[verifier::external_body]
fn now_nanos() -> u64 {
    std::time::SystemTime::now().duration_since(std::time::UNIX_EPOCH).map(
        |d| d.as_nanos() as u64,
    ).unwrap_or(0)
}

/// The lowercase hexadecimal digit for a value below sixteen.
pub open spec fn hex_digit_char(d: nat) -> char {
    if d < 10 {
        dec_digit(d)
    } else if d == 10 {
        'a'
    } else if d == 11 {
        'b'
    } else if d == 12 {
        'c'
    } else if d == 13 {
        'd'
    } else if d == 14 {
        'e'
    } else {
        'f'
    }
}

/// The two lowercase hexadecimal digits of one byte.
pub open spec fn byte_hex(b: u8) -> Seq<char> {
    seq![hex_digit_char(b as nat / 16), hex_digit_char(b as nat % 16)]
}

/// The lowercase hexadecimal rendering of a byte string.
pub open spec fn hex_of(bytes: Seq<u8>) -> Seq<char>
    decreases bytes.len(),
{
    if bytes.len() == 0 {
        Seq::empty()
    } else {
        hex_of(bytes.drop_last()) + byte_hex(bytes.last())
    }
}

/// The bytes hashed to derive an id: the title followed by the decimal
/// rendering of the timestamp, both in UTF-8.
pub open spec fn id_input(title: Seq<char>, nanos: nat) -> Seq<u8> {
    vstd::utf8::encode_utf8(title) + vstd::utf8::encode_utf8(dec_rep(nanos))
}

/// The id derived from a title and a timestamp: the first seven
/// hexadecimal digits of the SHA-256 digest of the two together.
pub open spec fn wire_id_of(title: Seq<char>, nanos: nat) -> Seq<char> {
    hex_of(sha256_of(id_input(title, nanos))).take(7)
}

proof fn lemma_hex_of_len(bytes: Seq<u8>)
    ensures
        hex_of(bytes).len() == 2 * bytes.len(),
    decreases bytes.len(),
{
    if bytes.len() > 0 {
        lemma_hex_of_len(bytes.drop_last());
    }
}

proof fn lemma_hex_of_lower(bytes: Seq<u8>)
    ensures
        forall|i: int| 0 <= i < hex_of(bytes).len() ==> is_lower_hex_digit(
            #[trigger] hex_of(bytes)[i],
        ),
    decreases bytes.len(),
{
    if bytes.len() > 0 {
        lemma_hex_of_lower(bytes.drop_last());
        lemma_hex_of_len(bytes.drop_last());
        assert forall|i: int| 0 <= i < hex_of(bytes).len() implies is_lower_hex_digit(
            #[trigger] hex_of(bytes)[i],
        ) by {
            if i < hex_of(bytes.drop_last()).len() {
                assert(hex_of(bytes)[i] == hex_of(bytes.drop_last())[i]);
            } else {
                assert(hex_of(bytes)[i] == byte_hex(bytes.last())[i - hex_of(
                    bytes.drop_last(),
                ).len()]);
            }
        }
    }
}

fn hex_digit_exec(d: u8) -> (r: char)
    requires
        d < 16,
    ensures
        r == hex_digit_char(d as nat),
{
    match d {
        0 => '0',
        1 => '1',
        2 => '2',
        3 => '3',
        4 => '4',
        5 => '5',
        6 => '6',
        7 => '7',
        8 => '8',
        9 => '9',
        10 => 'a',
        11 => 'b',
        12 => 'c',
        13 => 'd',
        14 => 'e',
        _ => 'f',
    }
}

/// The lowercase hexadecimal rendering of a byte string.
fn to_hex_chars(bytes: &[u8]) -> (r: Vec<char>)
    ensures
        r@ == hex_of(bytes@),
{
    let mut out: Vec<char> = Vec::new();
    let mut i: usize = 0;
    proof {
        assert(out@ =~= hex_of(bytes@.take(0)));
    }
    while i < bytes.len()
        invariant
            i <= bytes@.len(),
            out@ == hex_of(bytes@.take(i as int)),
        decreases bytes@.len() - i,
    {
        let b = bytes[i];
        out.push(hex_digit_exec(b / 16));
        out.push(hex_digit_exec(b % 16));
        proof {
            assert(bytes@.take(i + 1 as int).drop_last() =~= bytes@.take(i as int));
            assert(bytes@.take(i + 1 as int).last() == bytes@[i as int]);
            assert(out@ =~= hex_of(bytes@.take(i as int)) + byte_hex(bytes@[i as int]));
            assert(out@ =~= hex_of(bytes@.take(i + 1 as int)));
        }
        i = i + 1;
    }
    proof {
        assert(bytes@.take(bytes@.len() as int) =~= bytes@);
    }
    out
}

/// Derives the id for a title and a timestamp: the first seven lowercase
/// hexadecimal digits of the SHA-256 digest of the title followed by the
/// timestamp's decimal rendering.
pub fn id_from(title: &str, nanos: u64) -> (r: String)
    ensures
        r@ == wire_id_of(title@, nanos as nat),
        r@.len() == 7,
        forall|i: int| 0 <= i < r@.len() ==> is_lower_hex_digit(#[trigger] r@[i]),
{
    let mut input: Vec<u8> = Vec::new();
    input.extend_from_slice(title.as_bytes());
    let decimal = u64_to_string(nanos);
    input.extend_from_slice(decimal.as_str().as_bytes());
    proof {
        assert(input@ =~= id_input(title@, nanos as nat));
    }
    let digest = sha256_bytes(input.as_slice());
    let hex = to_hex_chars(digest.as_slice());
    proof {
        lemma_hex_of_len(digest@);
        lemma_hex_of_lower(digest@);
    }
    let mut first: Vec<char> = Vec::new();
    let mut i: usize = 0;
    while i < 7
        invariant
            hex@.len() == 64,
            hex@ == hex_of(sha256_of(id_input(title@, nanos as nat))),
            i <= 7,
            first@ == hex@.take(i as int),
        decreases 7 - i,
    {
        first.push(hex[i]);
        proof {
            assert(first@ =~= hex@.take(i + 1 as int));
        }
        i = i + 1;
    }
    proof {
        assert(first@ == wire_id_of(title@, nanos as nat));
        lemma_hex_of_lower(digest@);
        assert forall|t: int| 0 <= t < first@.len() implies is_lower_hex_digit(
            #[trigger] first@[t],
        ) by {
            assert(first@[t] == hex@[t]);
        }
    }
    string_from_chars(&first)
}

/// Generates a unique 7-character hexadecimal id from a title, by hashing
/// the title together with the current time in nanoseconds: identical
/// titles still yield fresh ids.
pub fn generate_id(title: &str) -> (r: String)
    ensures
        r@.len() == 7,
        forall|i: int| 0 <= i < r@.len() ==> is_lower_hex_digit(#[trigger] r@[i]),
{
    let nanos = now_nanos();
    id_from(title, nanos)
}

} // verus!
