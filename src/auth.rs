//! The server hash of the session handshake.
use vstd::prelude::*;
use vstd::string::StringSliceAdditionalSpecFns;

verus! {

/// The profile that the identity service selects for an account.
#[derive(Clone, Debug, Default, PartialEq, Eq)]
pub struct SelectedProfile {
    pub name: String,
    pub id: String,
}

/// The SHA-1 digest of a byte string.
pub uninterp spec fn sha1_of(data: Seq<u8>) -> Seq<u8>;

/// Relies on sha1's `Sha1::from` and `Digest::bytes`: the 20-byte SHA-1
/// digest of the data.
#[verifier::external_body]
fn sha1_digest(data: &[u8]) -> (r: Vec<u8>)
    ensures
        r@ == sha1_of(data@),
        r@.len() == 20,
{
    sha1::Sha1::from(data).digest().bytes().to_vec()
}

/// `256^n`.
pub open spec fn pow256(n: nat) -> nat
    decreases n,
{
    if n == 0 {
        1
    } else {
        256 * pow256((n - 1) as nat)
    }
}

/// The unsigned big-endian value of a byte string.
pub open spec fn be_value(s: Seq<u8>) -> nat
    decreases s.len(),
{
    if s.len() == 0 {
        0
    } else {
        (be_value(s.drop_last()) * 256 + s.last()) as nat
    }
}

/// The two's-complement big-endian value of a byte string; the empty string
/// is 0.
pub open spec fn signed_be_value(s: Seq<u8>) -> int {
    if s.len() > 0 && s[0] >= 128 {
        be_value(s) - pow256(s.len())
    } else {
        be_value(s) as int
    }
}

/// The lowercase hexadecimal digit of `d < 16`.
pub open spec fn hex_char(d: nat) -> char {
    seq!['0', '1', '2', '3', '4', '5', '6', '7', '8', '9', 'a', 'b', 'c', 'd', 'e', 'f'][d as int]
}

/// The lowercase hexadecimal digits of `n`, without leading zeros.
pub open spec fn hex_digits(n: nat) -> Seq<char>
    decreases n,
{
    if n < 16 {
        seq![hex_char(n)]
    } else {
        hex_digits(n / 16).push(hex_char(n % 16))
    }
}

/// The signed lowercase hexadecimal form of the two's-complement value of
/// `s`: a minus sign before the digits of the magnitude where it is negative.
pub open spec fn signed_hex(s: Seq<u8>) -> Seq<char> {
    let v = signed_be_value(s);
    if v < 0 {
        seq!['-'] + hex_digits((-v) as nat)
    } else {
        hex_digits(v as nat)
    }
}

/// Relies on num-bigint's `BigInt::from_signed_bytes_be` and its `LowerHex`
/// formatting: the two's-complement value of the bytes, in lowercase
/// hexadecimal, signed, with no prefix.
#[verifier::external_body]
fn signed_hex_string(bytes: &[u8]) -> (r: String)
    ensures
        r@ == signed_hex(bytes@),
{
    format!("{:x}", num_bigint::BigInt::from_signed_bytes_be(bytes))
}

/// A digest in the game's signed hexadecimal form.
pub fn hexdigest(bytes: &[u8]) -> (r: String)
    ensures
        r@ == signed_hex(bytes@),
{
    signed_hex_string(bytes)
}

fn append_bytes(out: &mut Vec<u8>, src: &[u8])
    ensures
        final(out)@ == old(out)@ + src@,
{
    let mut i: usize = 0;
    while i < src.len()
        invariant
            i <= src@.len(),
            out@ == old(out)@ + src@.subrange(0, i as int),
        decreases src@.len() - i,
    {
        out.push(src[i]);
        i = i + 1;
        proof {
            assert(src@.subrange(0, i as int) == src@.subrange(0, i - 1).push(src@[i - 1]));
        }
    }
    proof {
        assert(src@.subrange(0, src@.len() as int) == src@);
    }
}

/// The server hash that the session service checks: the SHA-1 digest of the
/// server id's UTF-8 bytes, the shared secret and the encoded public key, in
/// the signed hexadecimal form.
pub fn calc_hash(server_id: &str, shared_secret: &[u8], public_key_encoded: &[u8]) -> (r: String)
    ensures
        r@ == signed_hex(sha1_of(server_id.spec_bytes() + shared_secret@ + public_key_encoded@)),
{
    let mut data: Vec<u8> = Vec::new();
    append_bytes(&mut data, server_id.as_bytes());
    append_bytes(&mut data, shared_secret);
    append_bytes(&mut data, public_key_encoded);
    proof {
        assert(data@ == server_id.spec_bytes() + shared_secret@ + public_key_encoded@);
    }
    let digest = sha1_digest(data.as_slice());
    hexdigest(digest.as_slice())
}

} // verus!
