//! Chunk digests and the names that chunks have in the pool.

use vstd::prelude::*;
use vstd::string::{StringExecFns, StringSliceAdditionalSpecFns};

verus! {

/// The number of shards of the chunk pool: one for each value of a digest's
/// first byte.
pub const SHARD_COUNT: usize = 256;

/// The highest number of a `.bad` sidecar of one chunk.
pub const MAX_BAD_SLOT: u8 = 9;

/// The lower-case hexadecimal digit of a value below sixteen.
pub open spec fn hex_digit(n: int) -> char {
    if n == 0 {
        '0'
    } else if n == 1 {
        '1'
    } else if n == 2 {
        '2'
    } else if n == 3 {
        '3'
    } else if n == 4 {
        '4'
    } else if n == 5 {
        '5'
    } else if n == 6 {
        '6'
    } else if n == 7 {
        '7'
    } else if n == 8 {
        '8'
    } else if n == 9 {
        '9'
    } else if n == 10 {
        'a'
    } else if n == 11 {
        'b'
    } else if n == 12 {
        'c'
    } else if n == 13 {
        'd'
    } else if n == 14 {
        'e'
    } else {
        'f'
    }
}

/// The lower-case hexadecimal text of `data`: two digits a byte, the high
/// half first.
pub open spec fn hex_text(data: Seq<u8>) -> Seq<char>
    decreases data.len(),
{
    if data.len() == 0 {
        Seq::<char>::empty()
    } else {
        hex_text(data.drop_last()).push(hex_digit(data.last() as int / 16)).push(
            hex_digit(data.last() as int % 16),
        )
    }
}

/// The hexadecimal text has two characters a byte.
pub proof fn lemma_hex_text_len(data: Seq<u8>)
    ensures
        hex_text(data).len() == 2 * data.len(),
    decreases data.len(),
{
    if data.len() > 0 {
        lemma_hex_text_len(data.drop_last());
    }
}

/// Writes `data` in lower-case hexadecimal.
///
/// Trusted: this is `hex::encode`, which maps every byte to two characters
/// out of `0123456789abcdef`, the high four bits first, and keeps the order
/// of the bytes.
#[verifier::external_body]
pub(crate) fn hex_encode(data: &[u8]) -> (s: String)
    ensures
        s@ == hex_text(data@),
{
    hex::encode(data)
}

/// The hexadecimal name of a digest: 64 lower-case characters.
pub fn digest_to_hex(digest: &[u8; 32]) -> (s: String)
    ensures
        s@ == hex_text(digest@),
        s@.len() == 64,
{
    proof {
        lemma_hex_text_len(digest@);
    }
    hex_encode(digest.as_slice())
}

/// The name of the shard directory of a digest: its first byte in
/// hexadecimal.
pub fn digest_to_prefix(digest: &[u8; 32]) -> (s: String)
    ensures
        s@ == hex_text(digest@.take(1)),
{
    let mut first: Vec<u8> = Vec::new();
    first.push(digest[0]);
    assert(first@ =~= digest@.take(1));
    hex_encode(first.as_slice())
}

/// The path of a chunk below the datastore's base directory:
/// `.chunks/<hh>/<digest-hex>`.
pub open spec fn chunk_rel_path(digest: Seq<u8>) -> Seq<char> {
    ".chunks/"@ + hex_text(digest.take(1)) + "/"@ + hex_text(digest)
}

/// The text of a sidecar's number.
pub open spec fn bad_slot_text(slot: int) -> Seq<char> {
    seq![crate::rfc3339::digit_char(slot)]
}

/// The path of the sidecar number `slot` of a chunk below the base
/// directory: `.chunks/<hh>/<digest-hex>.<n>.bad`.
pub open spec fn bad_chunk_rel_path(digest: Seq<u8>, slot: int) -> Seq<char> {
    chunk_rel_path(digest) + "."@ + bad_slot_text(slot) + ".bad"@
}

/// The path of a chunk below the base directory, and the digest's
/// hexadecimal name.
pub fn chunk_rel_path_of(digest: &[u8; 32]) -> (r: (String, String))
    ensures
        r.0@ == chunk_rel_path(digest@),
        r.1@ == hex_text(digest@),
{
    let hex = digest_to_hex(digest);
    let prefix = digest_to_prefix(digest);
    let mut path = String::from_str(".chunks/");
    path.append(prefix.as_str());
    path.append("/");
    path.append(hex.as_str());
    (path, hex)
}

/// The path of a chunk's sidecar below the base directory.
pub fn bad_chunk_rel_path_of(digest: &[u8; 32], slot: u8) -> (r: String)
    requires
        slot <= MAX_BAD_SLOT,
    ensures
        r@ == bad_chunk_rel_path(digest@, slot as int),
{
    let (mut path, _hex) = chunk_rel_path_of(digest);
    path.append(".");
    crate::text::push_char(&mut path, crate::rfc3339::char_of_digit(slot as u64));
    path.append(".bad");
    assert(path@ =~= bad_chunk_rel_path(digest@, slot as int));
    path
}

/// Whether two digests are the same.
pub fn same_digest(a: &[u8; 32], b: &[u8; 32]) -> (r: bool)
    ensures
        r == (a@ == b@),
{
    let mut i: usize = 0;
    while i < 32
        invariant
            i <= 32,
            forall|k: int| 0 <= k < i ==> a@[k] == b@[k],
        decreases 32 - i,
    {
        if a[i] != b[i] {
            return false;
        }
        i += 1;
    }
    assert(a@ =~= b@);
    true
}


/// The SHA-256 hash of a byte string.
pub uninterp spec fn sha256_spec(data: Seq<u8>) -> Seq<u8>;

/// Computes the SHA-256 hash of `data`.
///
/// Trusted: this is `openssl::sha::sha256`, which hands the bytes to
/// OpenSSL's `SHA256` and gives back the 32 bytes it wrote. The hash is a
/// function of the bytes alone.
#[verifier::external_body]
pub(crate) fn sha256(data: &[u8]) -> (digest: [u8; 32])
    ensures
        digest@ == sha256_spec(data@),
{
    openssl::sha::sha256(data)
}

/// The digest of a text: the SHA-256 hash of its bytes.
pub fn digest_of_text(text: &str) -> (digest: [u8; 32])
    ensures
        digest@ == sha256_spec(text.spec_bytes()),
{
    sha256(text.as_bytes())
}

} // verus!
