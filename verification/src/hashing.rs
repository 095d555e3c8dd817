//! Content signatures for the exact-match stage.
//!
//! A signature is the lowercase hex encoding of a SHA-256 digest.  The
//! exact signature digests a file's whole contents; the partial
//! signature digests only a fixed-size prefix, a fixed-size suffix
//! (when the file is large enough to have one), and the total length,
//! as a cheap proxy for content equality.

use vstd::prelude::*;
use vstd::arithmetic::div_mod::lemma_fundamental_div_mod;
use vstd::bytes::spec_u64_to_le_bytes;
use vstd::bytes::u64_to_le_bytes;
use vstd::string::StrSliceExecFns;

verus! {

/// The SHA-256 digest of a byte sequence.
pub uninterp spec fn sha256_of(data: Seq<u8>) -> Seq<u8>;

/// Relies on sha2's `Sha256::digest`: the digest depends on the input
/// bytes alone and is 32 bytes long.
#[verifier::external_body]
fn sha256_digest(data: &Vec<u8>) -> (r: Vec<u8>)
    ensures
        r@ == sha256_of(data@),
        r@.len() == 32,
{
    <sha2::Sha256 as sha2::Digest>::digest(data.as_slice()).to_vec()
}

/// The lowercase hex character for a value below sixteen.
pub open spec fn hex_char_of_nibble(n: u8) -> char
    recommends
        n < 16,
{
    if n == 0 {
        '0'
    } else if n == 1 {
        '1'
    } else if n == 2 {
        '2'
    } else if n == 3 {
        '3'
    } else if n == 4 {
        '4'
    } else if n == 5 {
        '5'
    } else if n == 6 {
        '6'
    } else if n == 7 {
        '7'
    } else if n == 8 {
        '8'
    } else if n == 9 {
        '9'
    } else if n == 10 {
        'a'
    } else if n == 11 {
        'b'
    } else if n == 12 {
        'c'
    } else if n == 13 {
        'd'
    } else if n == 14 {
        'e'
    } else {
        'f'
    }
}

/// The value of a lowercase hex character, or `None` for any other
/// character.
pub open spec fn nibble_of_hex_char(c: char) -> Option<u8> {
    if c == '0' {
        Some(0u8)
    } else if c == '1' {
        Some(1u8)
    } else if c == '2' {
        Some(2u8)
    } else if c == '3' {
        Some(3u8)
    } else if c == '4' {
        Some(4u8)
    } else if c == '5' {
        Some(5u8)
    } else if c == '6' {
        Some(6u8)
    } else if c == '7' {
        Some(7u8)
    } else if c == '8' {
        Some(8u8)
    } else if c == '9' {
        Some(9u8)
    } else if c == 'a' {
        Some(10u8)
    } else if c == 'b' {
        Some(11u8)
    } else if c == 'c' {
        Some(12u8)
    } else if c == 'd' {
        Some(13u8)
    } else if c == 'e' {
        Some(14u8)
    } else if c == 'f' {
        Some(15u8)
    } else {
        None
    }
}

/// The lowercase hex encoding of a byte sequence: two characters per
/// byte, high nibble first.
pub open spec fn hex_of(data: Seq<u8>) -> Seq<char>
    decreases data.len(),
{
    if data.len() == 0 {
        Seq::empty()
    } else {
        seq![
            hex_char_of_nibble((data.first() / 16) as u8),
            hex_char_of_nibble((data.first() % 16) as u8),
        ] + hex_of(data.drop_first())
    }
}

/// The bytes encoded by a sequence of lowercase hex characters, or
/// `None` when the sequence has odd length or holds any other
/// character.
pub open spec fn hex_to_bytes(s: Seq<char>) -> Option<Seq<u8>>
    decreases s.len(),
{
    if s.len() == 0 {
        Some(Seq::empty())
    } else if s.len() == 1 {
        None
    } else {
        match (nibble_of_hex_char(s[0]), nibble_of_hex_char(s[1])) {
            (Some(h), Some(l)) => match hex_to_bytes(s.skip(2)) {
                Some(rest) => Some(seq![(h * 16 + l) as u8] + rest),
                None => None,
            },
            _ => None,
        }
    }
}

/// Hex encoding produces two characters per byte.
pub proof fn lemma_hex_of_len(data: Seq<u8>)
    ensures
        hex_of(data).len() == 2 * data.len(),
    decreases data.len(),
{
    if data.len() > 0 {
        lemma_hex_of_len(data.drop_first());
    }
}

/// A sequence that decodes successfully encodes half as many bytes as
/// it has characters.
pub proof fn lemma_hex_to_bytes_len(s: Seq<char>)
    ensures
        hex_to_bytes(s) matches Some(b) ==> 2 * b.len() == s.len(),
    decreases s.len(),
{
    if s.len() >= 2 {
        lemma_hex_to_bytes_len(s.skip(2));
    }
}

proof fn lemma_nibble_round_trip(n: u8)
    requires
        n < 16,
    ensures
        nibble_of_hex_char(hex_char_of_nibble(n)) == Some(n),
{
}

/// Decoding inverts encoding: the hex encoding of any byte sequence
/// decodes back to exactly that sequence.
pub proof fn lemma_hex_round_trip(data: Seq<u8>)
    ensures
        hex_to_bytes(hex_of(data)) == Some(data),
    decreases data.len(),
{
    if data.len() == 0 {
        assert(hex_to_bytes(hex_of(data)) =~= Some(data));
    } else {
        let b = data.first();
        let h = (b / 16) as u8;
        let l = (b % 16) as u8;
        let rest = data.drop_first();
        lemma_hex_round_trip(rest);
        lemma_hex_of_len(rest);
        let s = hex_of(data);
        assert(s[0] == hex_char_of_nibble(h));
        assert(s[1] == hex_char_of_nibble(l));
        assert(s.skip(2) =~= hex_of(rest));
        lemma_nibble_round_trip(h);
        lemma_nibble_round_trip(l);
        lemma_fundamental_div_mod(b as int, 16);
        assert((h * 16 + l) as u8 == b);
        assert(seq![b] + rest =~= data);
    }
}

/// Character-for-character string equality.
pub(crate) fn str_eq(a: &str, b: &str) -> (r: bool)
    ensures
        r == (a@ == b@),
{
    let na = a.unicode_len();
    let nb = b.unicode_len();
    if na != nb {
        return false;
    }
    let mut i: usize = 0;
    while i < na
        invariant
            na == a@.len(),
            nb == b@.len(),
            na == nb,
            i <= na,
            forall|k: int| 0 <= k < i ==> a@[k] == b@[k],
        decreases na - i,
    {
        if a.get_char(i) != b.get_char(i) {
            return false;
        }
        i = i + 1;
    }
    proof {
        assert(a@ =~= b@);
    }
    true
}

/// Relies on hex's `encode`: the lowercase hex encoding of the input
/// bytes, two digits per byte, high nibble first.
#[verifier::external_body]
pub(crate) fn hex_encode(data: &Vec<u8>) -> (r: String)
    ensures
        r@ == hex_of(data@),
{
    hex::encode(data)
}

/// Computes the exact content signature: the hex-encoded SHA-256
/// digest of the file's whole contents, sixty-four hex characters.
pub fn compute_exact_hash(data: &Vec<u8>) -> (r: String)
    ensures
        r@ == hex_of(sha256_of(data@)),
        r@.len() == 64,
{
    let digest = sha256_digest(data);
    proof {
        lemma_hex_of_len(digest@);
    }
    hex_encode(&digest)
}

/// The bytes digested by the partial signature: the prefix, then the
/// suffix when one was read, then the total length in little-endian
/// byte order.
pub open spec fn partial_hash_input(prefix: Seq<u8>, tail: Option<Seq<u8>>, total_len: u64) -> Seq<
    u8,
> {
    prefix + (match tail {
        Some(t) => t,
        None => Seq::empty(),
    }) + spec_u64_to_le_bytes(total_len)
}

fn push_all(dst: &mut Vec<u8>, src: &Vec<u8>)
    ensures
        final(dst)@ == old(dst)@ + src@,
{
    let n = src.len();
    let mut i: usize = 0;
    while i < n
        invariant
            n == src@.len(),
            i <= n,
            dst@ == old(dst)@ + src@.subrange(0, i as int),
        decreases n - i,
    {
        dst.push(src[i]);
        assert(old(dst)@ + src@.subrange(0, i as int) + seq![src@[i as int]] =~= old(dst)@
            + src@.subrange(0, i + 1));
        i = i + 1;
    }
    assert(src@.subrange(0, n as int) =~= src@);
}

/// Computes the partial content signature from a file's prefix bytes,
/// its suffix bytes when the file was large enough for a distinct
/// suffix to be read, and its total length in bytes.  The three are
/// digested together so files that differ in any of them get distinct
/// signatures (up to digest collisions).  The signature is sixty-four
/// hex characters.
pub fn compute_partial_hash(prefix: &Vec<u8>, tail: &Option<Vec<u8>>, total_len: u64) -> (r:
    String)
    ensures
        r@ == hex_of(sha256_of(partial_hash_input(prefix@, tail.deep_view(), total_len))),
        r@.len() == 64,
{
    let mut data: Vec<u8> = Vec::new();
    push_all(&mut data, prefix);
    match tail {
        Some(t) => push_all(&mut data, t),
        None => (),
    }
    let len_bytes = u64_to_le_bytes(total_len);
    push_all(&mut data, &len_bytes);
    assert(data@ =~= partial_hash_input(prefix@, tail.deep_view(), total_len));
    let digest = sha256_digest(&data);
    proof {
        lemma_hex_of_len(digest@);
    }
    hex_encode(&digest)
}

} // verus!
