//! Where a generated program is kept: files named after the SHA-256 digest
//! of its text.

use sha2::{Digest, Sha256};
use vstd::prelude::*;
use vstd::string::*;

verus! {

/// The SHA-256 digest of `data`.
pub uninterp spec fn sha256(data: Seq<u8>) -> Seq<u8>;

/// `Sha256::digest` of the crate `sha2`, with its output copied into a
/// vector. Nothing is proved of it; the contract only gives its result the
/// name `sha256`, which says that equal data have equal digests.
#[verifier::external_body]
fn sha256_digest(data: &[u8]) -> (digest: Vec<u8>)
    ensures
        digest@ == sha256(data@),
{
    Sha256::digest(data).to_vec()
}

/// The lower-case hexadecimal digit for `n`.
pub open spec fn hex_digit(n: nat) -> char
    recommends
        n < 16,
{
    if n < 10 {
        (n + 48) as char
    } else {
        (n + 87) as char
    }
}

/// `bytes` in lower-case hexadecimal, two digits for each byte.
pub open spec fn hex(bytes: Seq<u8>) -> Seq<char>
    decreases bytes.len(),
{
    if bytes.len() == 0 {
        Seq::empty()
    } else {
        hex(bytes.drop_last()).push(hex_digit(bytes.last() as nat / 16)).push(
            hex_digit(bytes.last() as nat % 16),
        )
    }
}

/// The path of the source file of the program with the digest `digest`.
pub open spec fn source_path_of(digest: Seq<u8>) -> Seq<char> {
    "/tmp/"@ + hex(digest) + ".rs"@
}

/// The path of the executable of the program with the digest `digest`.
pub open spec fn binary_path_of(digest: Seq<u8>) -> Seq<char> {
    "/tmp/"@ + hex(digest)
}

/// Writes the hexadecimal digit for `n` at the end of `out`.
fn push_hex_digit(out: &mut String, n: u8)
    requires
        n < 16,
    ensures
        final(out)@ == old(out)@.push(hex_digit(n as nat)),
{
    let ch: char = if n < 10 {
        (n + 48) as char
    } else {
        (n + 87) as char
    };
    out.push(ch);
}

/// Writes `bytes` in lower-case hexadecimal at the end of `out`.
pub fn push_hex(out: &mut String, bytes: &[u8])
    ensures
        final(out)@ == old(out)@ + hex(bytes@),
{
    for i in 0..bytes.len()
        invariant
            out@ == old(out)@ + hex(bytes@.take(i as int)),
    {
        let ghost before = out@;
        let byte = bytes[i];
        push_hex_digit(out, byte / 16);
        push_hex_digit(out, byte % 16);
        proof {
            assert(bytes@.take(i + 1).drop_last() =~= bytes@.take(i as int));
            assert(bytes@.take(i + 1).last() == byte);
            assert(out@ =~= old(out)@ + hex(bytes@.take(i + 1)));
        }
    }
    assert(bytes@.take(bytes.len() as int) =~= bytes@);
}

/// The path of the source file of the program with the digest `digest`:
/// the digest in hexadecimal, under `/tmp`, with the extension `rs`.
pub fn source_path(digest: &[u8]) -> (path: String)
    ensures
        path@ == source_path_of(digest@),
{
    let mut path = String::from_str("/tmp/");
    push_hex(&mut path, digest);
    path.append(".rs");
    path
}

/// The path of the executable of the program with the digest `digest`: the
/// digest in hexadecimal, under `/tmp`.
pub fn binary_path(digest: &[u8]) -> (path: String)
    ensures
        path@ == binary_path_of(digest@),
{
    let mut path = String::from_str("/tmp/");
    push_hex(&mut path, digest);
    path
}

/// The paths of the source file and of the executable of `program`, both
/// named after the SHA-256 digest of its text.
pub fn program_paths(program: &str) -> (paths: (String, String))
    ensures
        paths.0@ == source_path_of(sha256(program.spec_bytes())),
        paths.1@ == binary_path_of(sha256(program.spec_bytes())),
{
    let digest = sha256_digest(program.as_bytes());
    (source_path(digest.as_slice()), binary_path(digest.as_slice()))
}

} // verus!
